//! The element tree and the operations that build it.

use crate::attributes::{clone_map, empty_map, entries, entry_list, insert_entry};
use crate::escape::escape_str;
use crate::model::{ContentModel, ElementModel};
use crate::render::{
    attribute_text, attributes_text, declaration, document_bytes, document_text, element_text,
    elements_text, indentation, tag_start,
};
use indexmap::IndexMap;
use std::fmt::Display;
use vstd::prelude::*;
use vstd::string::to_string_from_display_ensures;

verus! {

/// Represents an XML element.
#[derive(Debug, Eq, PartialEq)]
pub struct XMLElement {
    name: String,
    attributes: IndexMap<String, String>,
    content: XMLElementContent,
}

#[derive(Debug, Eq, PartialEq)]
enum XMLElementContent {
    Empty,
    Elements(Vec<XMLElement>),
    Text(String),
}

/// The models of the elements of `list`, in order.
spec fn models(list: Vec<XMLElement>) -> Seq<ElementModel>
    decreases list,
{
    Seq::new(
        list.len() as nat,
        |i: int|
            if 0 <= i < list.len() {
                list[i].model()
            } else {
                arbitrary()
            },
    )
}

impl XMLElementContent {
    spec fn model(self) -> ContentModel
        decreases self,
    {
        match self {
            XMLElementContent::Empty => ContentModel::Empty,
            XMLElementContent::Elements(list) => ContentModel::Elements(models(list)),
            XMLElementContent::Text(text) => ContentModel::Text(text@),
        }
    }
}

impl View for XMLElement {
    type V = ElementModel;

    closed spec fn view(&self) -> ElementModel {
        self.model()
    }
}

impl XMLElement {
    spec fn model(self) -> ElementModel
        decreases self,
    {
        ElementModel {
            name: self.name@,
            attributes: entries(&self.attributes),
            content: self.content.model(),
        }
    }

    /// Creates a new empty XML element using the given name for the tag.
    pub fn with_name(name: &str) -> (element: Self)
        ensures
            element@ == ElementModel::named(name@),
            element@.well_formed(),
    {
        XMLElement {
            name: name.to_owned(),
            attributes: empty_map(),
            content: XMLElementContent::Empty,
        }
    }

    /// Creates a new empty XML element whose tag is the text of `name`.
    pub fn new<T: Display>(name: T) -> (element: Self)
        ensures
            exists|text: String|
                #[trigger] to_string_from_display_ensures::<T>(&name, text) && element@
                    == ElementModel::named(text@),
            element@.well_formed(),
    {
        let text = name.to_string();
        Self::with_name(text.as_str())
    }

    /// Whether a child can be added: the element holds no text.
    pub fn accepts_child(&self) -> (yes: bool)
        ensures
            yes == self@.accepts_child(),
    {
        match &self.content {
            XMLElementContent::Text(_) => false,
            _ => true,
        }
    }

    /// Whether text can be added: the element holds nothing yet.
    pub fn accepts_text(&self) -> (yes: bool)
        ensures
            yes == self@.accepts_text(),
    {
        match &self.content {
            XMLElementContent::Empty => true,
            _ => false,
        }
    }

    /// Gives the attribute `name` the escaped form of `value`. An attribute
    /// that the element already has keeps its place; a new one goes last.
    pub fn add_attribute_str(&mut self, name: &str, value: &str)
        ensures
            final(self)@ == old(self)@.add_attribute(name@, value@),
            old(self)@.well_formed() ==> final(self)@.well_formed(),
    {
        insert_entry(&mut self.attributes, name.to_owned(), escape_str(value));
    }

    /// Adds an attribute to the XML element. The name and the value are the
    /// texts of `name` and `value`.
    pub fn add_attribute<N: Display, V: Display>(&mut self, name: N, value: V)
        ensures
            exists|n: String, v: String|
                {
                    &&& #[trigger] to_string_from_display_ensures::<N>(&name, n)
                    &&& #[trigger] to_string_from_display_ensures::<V>(&value, v)
                    &&& final(self)@ == old(self)@.add_attribute(n@, v@)
                },
            old(self)@.well_formed() ==> final(self)@.well_formed(),
    {
        let n = name.to_string();
        let v = value.to_string();
        self.add_attribute_str(n.as_str(), v.as_str());
    }

    /// Adds a child element to the XML element.
    /// The new child will be placed after previously added children.
    ///
    /// This method may only be called on an element that has children or is
    /// empty.
    ///
    /// # Panics
    ///
    /// Panics if the element contains text. The precondition rules that out
    /// for verified callers.
    pub fn add_child(&mut self, child: XMLElement)
        requires
            old(self)@.accepts_child(),
        ensures
            final(self)@ == old(self)@.add_child(child@),
            old(self)@.well_formed() && child@.well_formed() ==> final(self)@.well_formed(),
    {
        match self.content {
            XMLElementContent::Empty => {
                let list = vec![child];
                proof {
                    assert(models(list) =~= Seq::<ElementModel>::empty().push(child@));
                }
                self.content = XMLElementContent::Elements(list);
            },
            XMLElementContent::Elements(ref mut list) => {
                let ghost before = *list;
                list.push(child);
                proof {
                    assert(models(*list) =~= models(before).push(child@));
                }
            },
            XMLElementContent::Text(_) => {
                unreached::<()>();
            },
        }
    }

    /// Adds text to the XML element: the escaped form of the text of `text`.
    ///
    /// This method may only be called on an empty element.
    ///
    /// # Panics
    ///
    /// Panics if the element is not empty. The precondition rules that out
    /// for verified callers.
    pub fn add_text<T: Display>(&mut self, text: T)
        requires
            old(self)@.accepts_text(),
        ensures
            exists|t: String|
                #[trigger] to_string_from_display_ensures::<T>(&text, t) && final(self)@ == old(
                    self,
                )@.add_text(t@),
            old(self)@.well_formed() ==> final(self)@.well_formed(),
    {
        let t = text.to_string();
        self.add_text_str(t.as_str());
    }

    /// Adds the escaped form of `text` to the XML element.
    ///
    /// This method may only be called on an empty element.
    ///
    /// # Panics
    ///
    /// Panics if the element is not empty. The precondition rules that out
    /// for verified callers.
    pub fn add_text_str(&mut self, text: &str)
        requires
            old(self)@.accepts_text(),
        ensures
            final(self)@ == old(self)@.add_text(text@),
            old(self)@.well_formed() ==> final(self)@.well_formed(),
    {
        match self.content {
            XMLElementContent::Empty => {
                self.content = XMLElementContent::Text(escape_str(text));
            },
            _ => {
                unreached::<()>();
            },
        }
    }

    /// The UTF-8 XML document whose root is this element, as text: the
    /// declaration line, then the lines of the element, indented by one tab
    /// for each level of nesting.
    pub fn to_string(&self) -> (text: String)
        ensures
            text@ == document_text(self@),
    {
        let mut out = "<?xml version = \"1.0\" encoding = \"UTF-8\"?>\n".to_owned();
        proof {
            reveal_strlit("<?xml version = \"1.0\" encoding = \"UTF-8\"?>\n");
            reveal_strlit("");
            assert(out@ =~= declaration());
            assert(""@ =~= indentation(0));
        }
        self.write_level(&mut out, "", Ghost(0));
        out
    }

    /// Outputs a UTF-8 XML document, where this element is the root element:
    /// appends the bytes of the document to `sink`.
    ///
    /// Output is properly indented.
    pub fn write(&self, sink: &mut Vec<u8>)
        ensures
            final(sink)@ == old(sink)@ + document_bytes(self@),
    {
        let text = self.to_string();
        let ghost before = sink@;
        sink.extend_from_slice(text.as_str().as_bytes());
        proof {
            assert(sink@ =~= before + document_bytes(self@));
        }
    }

    /// Appends the lines of this element, at the nesting level whose
    /// indentation is `prefix`, to `out`.
    fn write_level(&self, out: &mut String, prefix: &str, Ghost(level): Ghost<nat>)
        requires
            prefix@ == indentation(level),
        ensures
            final(out)@ == old(out)@ + element_text(self@, level),
        decreases self,
    {
        let ghost start = out@;
        let attributes = self.attribute_string();
        out.append(prefix);
        out.append("<");
        out.append(self.name.as_str());
        out.append(attributes.as_str());
        proof {
            reveal_strlit("<");
            assert(out@ =~= start + indentation(level) + tag_start(self@));
        }
        match &self.content {
            XMLElementContent::Empty => {
                out.append(" />\n");
                proof {
                    reveal_strlit(" />\n");
                    assert(out@ =~= start + element_text(self@, level));
                }
            },
            XMLElementContent::Elements(list) => {
                out.append(">\n");
                let mut inner = prefix.to_owned();
                inner.append("\t");
                let ghost opened = out@;
                let ghost children = models(*list);
                proof {
                    reveal_strlit(">\n");
                    reveal_strlit("\t");
                    assert(inner@ =~= indentation(level + 1));
                    assert(children.take(0) =~= Seq::<ElementModel>::empty());
                    assert(opened =~= opened + elements_text(children.take(0), level + 1));
                }
                let mut i: usize = 0;
                while i < list.len()
                    invariant
                        i <= list.len(),
                        self.content == XMLElementContent::Elements(*list),
                        children == models(*list),
                        inner@ == indentation(level + 1),
                        out@ == opened + elements_text(children.take(i as int), level + 1),
                    decreases list.len() - i,
                {
                    proof {
                        assert(self.content->Elements_0 == *list);
                    }
                    list[i].write_level(out, inner.as_str(), Ghost(level + 1));
                    proof {
                        assert(children.take(i + 1).drop_last() =~= children.take(i as int));
                        assert(children.take(i + 1).last() == list[i as int]@);
                        assert(out@ =~= opened + elements_text(children.take(i + 1), level + 1));
                    }
                    i += 1;
                }
                out.append(prefix);
                out.append("</");
                out.append(self.name.as_str());
                out.append(">\n");
                proof {
                    reveal_strlit("</");
                    assert(children.take(i as int) =~= children);
                    assert(out@ =~= start + element_text(self@, level));
                }
            },
            XMLElementContent::Text(text) => {
                out.append(">");
                out.append(text.as_str());
                out.append("</");
                out.append(self.name.as_str());
                out.append(">\n");
                proof {
                    reveal_strlit(">");
                    reveal_strlit("</");
                    reveal_strlit(">\n");
                    assert(out@ =~= start + element_text(self@, level));
                }
            },
        }
    }

    /// The attributes as they stand inside the tag.
    fn attribute_string(&self) -> (text: String)
        ensures
            text@ == attributes_text(self@.attributes),
    {
        let list = entry_list(&self.attributes);
        let ghost attributes = self@.attributes;
        let mut result = String::new();
        let mut i: usize = 0;
        while i < list.len()
            invariant
                i <= list.len(),
                list@.len() == attributes.len(),
                forall|j: int|
                    0 <= j < list@.len() ==> (#[trigger] list@[j]).0@ == attributes[j].0
                        && list@[j].1@ == attributes[j].1,
                result@ == attributes_text(attributes.take(i as int)),
            decreases list.len() - i,
        {
            let (k, v) = list[i];
            let ghost before = result@;
            result.append(" ");
            result.append(k.as_str());
            result.append("=\"");
            result.append(v.as_str());
            result.append("\"");
            proof {
                reveal_strlit(" ");
                reveal_strlit("=\"");
                reveal_strlit("\"");
                assert(attributes.take(i + 1).drop_last() =~= attributes.take(i as int));
                assert(result@ =~= before + attribute_text(attributes[i as int]));
            }
            i += 1;
        }
        proof {
            assert(attributes.take(i as int) =~= attributes);
        }
        result
    }
}

impl Clone for XMLElement {
    fn clone(&self) -> (copy: Self)
        ensures
            copy@ == self@,
        decreases self,
    {
        let content = match &self.content {
            XMLElementContent::Empty => XMLElementContent::Empty,
            XMLElementContent::Elements(list) => {
                let mut copies: Vec<XMLElement> = Vec::new();
                let mut i: usize = 0;
                while i < list.len()
                    invariant
                        i <= list.len(),
                        self.content == XMLElementContent::Elements(*list),
                        copies@.len() == i,
                        forall|j: int| 0 <= j < i ==> (#[trigger] copies@[j])@ == list@[j]@,
                    decreases list.len() - i,
                {
                    proof {
                        assert(self.content->Elements_0 == *list);
                    }
                    copies.push(list[i].clone());
                    i += 1;
                }
                proof {
                    assert(models(copies) =~= models(*list));
                }
                XMLElementContent::Elements(copies)
            },
            XMLElementContent::Text(text) => XMLElementContent::Text(text.clone()),
        };
        XMLElement { name: self.name.clone(), attributes: clone_map(&self.attributes), content }
    }
}

} // verus!
