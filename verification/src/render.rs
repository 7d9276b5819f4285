//! What a document looks like as text.

use crate::model::{Attribute, ContentModel, ElementModel};
use vstd::prelude::*;
use vstd::utf8::{
    decode_utf8, encode_utf8, encode_utf8_decode_utf8, encode_utf8_valid_utf8, valid_utf8,
};

verus! {

/// The first line of every document, with the newline that ends it.
pub open spec fn declaration() -> Seq<char> {
    seq![
        '<', '?', 'x', 'm', 'l', ' ', 'v', 'e', 'r', 's', 'i', 'o', 'n', ' ', '=', ' ', '"', '1',
        '.', '0', '"', ' ', 'e', 'n', 'c', 'o', 'd', 'i', 'n', 'g', ' ', '=', ' ', '"', 'U', 'T',
        'F', '-', '8', '"', '?', '>', '\n',
    ]
}

/// The indentation of nesting level `level`: one tab for each level.
pub open spec fn indentation(level: nat) -> Seq<char> {
    Seq::new(level, |i: int| '\t')
}

/// One attribute inside a tag: a space, the name, and the value in double quotes.
pub open spec fn attribute_text(attribute: Attribute) -> Seq<char> {
    seq![' '] + attribute.0 + seq!['=', '"'] + attribute.1 + seq!['"']
}

/// The attributes inside a tag, in the order of the sequence.
pub open spec fn attributes_text(attributes: Seq<Attribute>) -> Seq<char>
    decreases attributes.len(),
{
    if attributes.len() == 0 {
        Seq::empty()
    } else {
        attributes_text(attributes.drop_last()) + attribute_text(attributes.last())
    }
}

/// `<name attributes`: a tag up to where it closes.
pub open spec fn tag_start(element: ElementModel) -> Seq<char> {
    seq!['<'] + element.name + attributes_text(element.attributes)
}

/// `</name>` and the newline after it.
pub open spec fn closing_line(element: ElementModel) -> Seq<char> {
    seq!['<', '/'] + element.name + seq!['>', '\n']
}

/// The lines of `element` at nesting level `level`.
pub open spec fn element_text(element: ElementModel, level: nat) -> Seq<char>
    decreases element,
{
    match element.content {
        ContentModel::Empty => indentation(level) + tag_start(element) + seq![' ', '/', '>', '\n'],
        ContentModel::Elements(list) => indentation(level) + tag_start(element) + seq!['>', '\n']
            + elements_text(list, level + 1) + indentation(level) + closing_line(element),
        ContentModel::Text(text) => indentation(level) + tag_start(element) + seq!['>'] + text
            + closing_line(element),
    }
}

/// The lines of each element of `list` in turn, all at nesting level `level`.
pub open spec fn elements_text(list: Seq<ElementModel>, level: nat) -> Seq<char>
    decreases list,
{
    if list.len() == 0 {
        Seq::empty()
    } else {
        elements_text(list.drop_last(), level) + element_text(list.last(), level)
    }
}

/// The whole document whose root is `root`.
pub open spec fn document_text(root: ElementModel) -> Seq<char> {
    declaration() + element_text(root, 0)
}

/// The bytes of the document whose root is `root`: its text in UTF-8.
pub open spec fn document_bytes(root: ElementModel) -> Seq<u8> {
    encode_utf8(document_text(root))
}

/// The element reached from `element` by `path`: at each step, the child
/// whose number the path gives.
pub open spec fn descendant(element: ElementModel, path: Seq<int>) -> ElementModel
    decreases path.len(),
{
    if path.len() == 0 {
        element
    } else {
        descendant(element.children()[path[0]], path.drop_first())
    }
}

/// Every step of `path` names a child that is there.
pub open spec fn is_path(element: ElementModel, path: Seq<int>) -> bool
    decreases path.len(),
{
    path.len() == 0 || (0 <= path[0] < element.children().len() && is_path(
        element.children()[path[0]],
        path.drop_first(),
    ))
}

/// `part` stands in `text` from place `offset` on, and a line begins there.
pub open spec fn is_line_at(text: Seq<char>, offset: int, part: Seq<char>) -> bool {
    &&& 0 <= offset
    &&& offset + part.len() <= text.len()
    &&& text.subrange(offset, offset + part.len()) == part
    &&& offset == 0 || text[offset - 1] == '\n'
}

/// The bytes of a document are valid UTF-8, and decoding them gives the text
/// of the document back.
pub proof fn lemma_document_bytes_are_utf8(root: ElementModel)
    ensures
        valid_utf8(document_bytes(root)),
        decode_utf8(document_bytes(root)) == document_text(root),
{
    encode_utf8_valid_utf8(document_text(root));
    encode_utf8_decode_utf8(document_text(root));
}

/// An element with no children and no text is written as one self-closing
/// tag, with a single space before the slash, whether or not it has
/// attributes.
pub proof fn lemma_empty_element_is_self_closing(element: ElementModel, level: nat)
    requires
        element.content is Empty,
    ensures
        element_text(element, level) == indentation(level) + seq!['<'] + element.name
            + attributes_text(element.attributes) + seq![' ', '/', '>', '\n'],
        element.attributes.len() == 0 ==> element_text(element, level) == indentation(level)
            + seq!['<'] + element.name + seq![' ', '/', '>', '\n'],
{
    let tag = seq!['<'] + element.name + attributes_text(element.attributes);
    assert(indentation(level) + tag =~= indentation(level) + seq!['<'] + element.name
        + attributes_text(element.attributes));
    if element.attributes.len() == 0 {
        assert(tag =~= seq!['<'] + element.name);
    }
}

/// The attributes of a concatenation are written one part after the other.
pub proof fn lemma_attributes_text_concat(a: Seq<Attribute>, b: Seq<Attribute>)
    ensures
        attributes_text(a + b) == attributes_text(a) + attributes_text(b),
    decreases b.len(),
{
    if b.len() == 0 {
        assert(a + b =~= a);
        assert(attributes_text(a) + attributes_text(b) =~= attributes_text(a));
    } else {
        assert((a + b).drop_last() =~= a + b.drop_last());
        assert((a + b).last() == b.last());
        lemma_attributes_text_concat(a, b.drop_last());
        assert((attributes_text(a) + attributes_text(b.drop_last())) + attribute_text(b.last())
            =~= attributes_text(a) + (attributes_text(b.drop_last()) + attribute_text(b.last())));
    }
}

/// Attributes are written in the order of the sequence: each one stands
/// behind all that come before it and in front of all that come after it.
pub proof fn lemma_attributes_are_written_in_order(attributes: Seq<Attribute>, i: int)
    requires
        0 <= i < attributes.len(),
    ensures
        attributes_text(attributes) == attributes_text(attributes.take(i)) + attribute_text(
            attributes[i],
        ) + attributes_text(attributes.skip(i + 1)),
{
    let one = seq![attributes[i]];
    assert(attributes =~= (attributes.take(i) + one) + attributes.skip(i + 1));
    lemma_attributes_text_concat(attributes.take(i) + one, attributes.skip(i + 1));
    lemma_attributes_text_concat(attributes.take(i), one);
    assert(one.drop_last() =~= Seq::<Attribute>::empty());
    assert(attributes_text(one.drop_last()) =~= Seq::<char>::empty());
    assert(attributes_text(one) =~= attribute_text(attributes[i]));
}

/// The elements of a concatenation are written one part after the other.
pub proof fn lemma_elements_text_concat(a: Seq<ElementModel>, b: Seq<ElementModel>, level: nat)
    ensures
        elements_text(a + b, level) == elements_text(a, level) + elements_text(b, level),
    decreases b.len(),
{
    if b.len() == 0 {
        assert(a + b =~= a);
        assert(elements_text(a, level) + elements_text(b, level) =~= elements_text(a, level));
    } else {
        assert((a + b).drop_last() =~= a + b.drop_last());
        assert((a + b).last() == b.last());
        lemma_elements_text_concat(a, b.drop_last(), level);
        assert((elements_text(a, level) + elements_text(b.drop_last(), level)) + element_text(
            b.last(),
            level,
        ) =~= elements_text(a, level) + (elements_text(b.drop_last(), level) + element_text(
            b.last(),
            level,
        )));
    }
}

/// Children are written in the order of the sequence: each one stands behind
/// all that come before it and in front of all that come after it.
pub proof fn lemma_elements_are_written_in_order(list: Seq<ElementModel>, i: int, level: nat)
    requires
        0 <= i < list.len(),
    ensures
        elements_text(list, level) == elements_text(list.take(i), level) + element_text(
            list[i],
            level,
        ) + elements_text(list.skip(i + 1), level),
{
    let one = seq![list[i]];
    assert(list =~= (list.take(i) + one) + list.skip(i + 1));
    lemma_elements_text_concat(list.take(i) + one, list.skip(i + 1), level);
    lemma_elements_text_concat(list.take(i), one, level);
    assert(one.drop_last() =~= Seq::<ElementModel>::empty());
    assert(elements_text(one.drop_last(), level) =~= Seq::<char>::empty());
    assert(elements_text(one, level) =~= element_text(list[i], level));
}

/// The text of an element at nesting level `level` begins with exactly
/// `level` tabs and the `<` of its tag, and ends with a newline.
pub proof fn lemma_element_text_is_indented(element: ElementModel, level: nat)
    ensures
        element_text(element, level).len() > level + 1,
        element_text(element, level).take(level as int) == indentation(level),
        element_text(element, level)[level as int] == '<',
        element_text(element, level).last() == '\n',
{
    let text = element_text(element, level);
    let begin = indentation(level) + tag_start(element);
    assert(begin[level as int] == '<');
    assert(begin.take(level as int) =~= indentation(level));
    assert(text.take(level as int) =~= begin.take(level as int));
}

/// The text of a list of elements ends with a newline, unless the list is empty.
pub proof fn lemma_elements_text_ends_line(list: Seq<ElementModel>, level: nat)
    requires
        list.len() > 0,
    ensures
        elements_text(list, level).len() > 0,
        elements_text(list, level).last() == '\n',
{
    lemma_element_text_is_indented(list.last(), level);
}

/// Each level of nesting adds one tab. The text of the element that `path`
/// reaches from `element` stands in the text of `element` at the nesting
/// level that is deeper by the length of the path, and begins a line there.
pub proof fn lemma_descendant_is_written_deeper(
    element: ElementModel,
    path: Seq<int>,
    level: nat,
) -> (offset: int)
    requires
        is_path(element, path),
    ensures
        is_line_at(
            element_text(element, level),
            offset,
            element_text(descendant(element, path), level + path.len()),
        ),
    decreases path.len(),
{
    let text = element_text(element, level);
    if path.len() == 0 {
        assert(text.subrange(0, text.len() as int) =~= text);
        0
    } else {
        let list = element.children();
        let k = path[0];
        let child = list[k];
        let rest = path.drop_first();
        let inner = lemma_descendant_is_written_deeper(child, rest, level + 1);
        let part = element_text(descendant(element, path), level + path.len());
        assert(part == element_text(descendant(child, rest), level + 1 + rest.len()));
        let opening = indentation(level) + tag_start(element) + seq!['>', '\n'];
        let before = elements_text(list.take(k), level + 1);
        let middle = element_text(child, level + 1);
        let after = elements_text(list.skip(k + 1), level + 1);
        let closing = indentation(level) + closing_line(element);
        lemma_elements_are_written_in_order(list, k, level + 1);
        assert(text =~= opening + before + middle + after + closing);
        let offset = opening.len() + before.len() + inner;
        assert(text.subrange(offset, offset + part.len()) =~= middle.subrange(
            inner,
            inner + part.len(),
        ));
        if inner == 0 {
            if k > 0 {
                lemma_elements_text_ends_line(list.take(k), level + 1);
                assert(text[offset - 1] == before.last());
            } else {
                assert(list.take(k) =~= Seq::<ElementModel>::empty());
                assert(text[offset - 1] == opening.last());
            }
        } else {
            assert(text[offset - 1] == middle[inner - 1]);
        }
        offset
    }
}

/// An element nested at depth `path.len()` under the root stands in the
/// document on lines of its own, the first of which begins with exactly that
/// many tabs and then the `<` of its tag. The root itself, at depth zero, is
/// not indented and follows the declaration.
pub proof fn lemma_nested_element_is_indented(root: ElementModel, path: Seq<int>) -> (offset: int)
    requires
        is_path(root, path),
    ensures
        is_line_at(
            document_text(root),
            offset,
            element_text(descendant(root, path), path.len()),
        ),
        forall|i: int| offset <= i < offset + path.len() ==> document_text(root)[i] == '\t',
        document_text(root)[offset + path.len()] == '<',
        path.len() == 0 ==> offset == declaration().len(),
{
    let inner = lemma_descendant_is_written_deeper(root, path, 0);
    let part = element_text(descendant(root, path), path.len());
    let text = document_text(root);
    let offset = declaration().len() + inner;
    lemma_element_text_is_indented(descendant(root, path), path.len());
    assert(text.subrange(offset, offset + part.len()) =~= element_text(root, 0).subrange(
        inner,
        inner + part.len(),
    ));
    if inner == 0 {
        assert(text[offset - 1] == declaration().last());
    } else {
        assert(text[offset - 1] == element_text(root, 0)[inner - 1]);
    }
    assert forall|i: int| offset <= i < offset + path.len() implies text[i] == '\t' by {
        assert(text[i] == text.subrange(offset, offset + part.len())[i - offset]);
        assert(part[i - offset] == part.take(path.len() as int)[i - offset]);
    }
    assert(text[offset + path.len()] == text.subrange(offset, offset + part.len())[
        path.len() as int
    ]);
    offset
}

} // verus!
