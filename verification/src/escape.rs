//! Escaping of the characters that XML reserves.

use vstd::prelude::*;

verus! {

/// `&amp;`
pub open spec fn amp() -> Seq<char> {
    seq!['&', 'a', 'm', 'p', ';']
}

/// `&quot;`
pub open spec fn quot() -> Seq<char> {
    seq!['&', 'q', 'u', 'o', 't', ';']
}

/// `&apos;`
pub open spec fn apos() -> Seq<char> {
    seq!['&', 'a', 'p', 'o', 's', ';']
}

/// `&lt;`
pub open spec fn lt() -> Seq<char> {
    seq!['&', 'l', 't', ';']
}

/// `&gt;`
pub open spec fn gt() -> Seq<char> {
    seq!['&', 'g', 't', ';']
}

/// The five characters that escaped text does not use for themselves.
pub open spec fn is_reserved(c: char) -> bool {
    c == '&' || c == '"' || c == '\'' || c == '<' || c == '>'
}

/// What stands for `c` in escaped text: an entity reference for a reserved
/// character, the character itself otherwise.
pub open spec fn entity(c: char) -> Seq<char> {
    if c == '&' {
        amp()
    } else if c == '"' {
        quot()
    } else if c == '\'' {
        apos()
    } else if c == '<' {
        lt()
    } else if c == '>' {
        gt()
    } else {
        seq![c]
    }
}

/// The escaped form of `s`: every character replaced by what stands for it.
pub open spec fn escaped(s: Seq<char>) -> Seq<char>
    decreases s.len(),
{
    if s.len() == 0 {
        Seq::empty()
    } else {
        escaped(s.drop_last()) + entity(s.last())
    }
}

/// `word` stands in `text` from place `i` on.
pub open spec fn occurs_at(text: Seq<char>, i: int, word: Seq<char>) -> bool {
    0 <= i && i + word.len() <= text.len() && text.subrange(i, i + word.len()) == word
}

/// One of the five entity references stands in `text` from place `i` on.
pub open spec fn entity_at(text: Seq<char>, i: int) -> bool {
    ||| occurs_at(text, i, amp())
    ||| occurs_at(text, i, quot())
    ||| occurs_at(text, i, apos())
    ||| occurs_at(text, i, lt())
    ||| occurs_at(text, i, gt())
}

/// No reserved character stands for itself at place `i` of `text`: where
/// the character there is reserved, it is the `&` with which an entity
/// reference begins.
pub open spec fn safe_at(text: Seq<char>, i: int) -> bool {
    is_reserved(text[i]) ==> text[i] == '&' && entity_at(text, i)
}

/// No reserved character stands for itself anywhere in `text`.
pub open spec fn no_raw_reserved(text: Seq<char>) -> bool {
    forall|i: int| 0 <= i < text.len() ==> safe_at(text, i)
}

/// `s` with every occurrence of the character `from` replaced by `to`.
pub open spec fn replaced(s: Seq<char>, from: char, to: Seq<char>) -> Seq<char>
    decreases s.len(),
{
    if s.len() == 0 {
        Seq::empty()
    } else {
        replaced(s.drop_last(), from, to) + (if s.last() == from {
            to
        } else {
            seq![s.last()]
        })
    }
}

/// The five replacements applied one after the other, `&` first.
pub open spec fn replaced_in_order(s: Seq<char>) -> Seq<char> {
    replaced(
        replaced(replaced(replaced(replaced(s, '&', amp()), '"', quot()), '\'', apos()), '<', lt()),
        '>',
        gt(),
    )
}

/// Replacement works through a concatenation piece by piece.
pub proof fn lemma_replaced_concat(a: Seq<char>, b: Seq<char>, from: char, to: Seq<char>)
    ensures
        replaced(a + b, from, to) == replaced(a, from, to) + replaced(b, from, to),
    decreases b.len(),
{
    if b.len() == 0 {
        assert(a + b =~= a);
        assert(replaced(a, from, to) + replaced(b, from, to) =~= replaced(a, from, to));
    } else {
        let last = if b.last() == from {
            to
        } else {
            seq![b.last()]
        };
        assert((a + b).drop_last() =~= a + b.drop_last());
        assert((a + b).last() == b.last());
        lemma_replaced_concat(a, b.drop_last(), from, to);
        assert((replaced(a, from, to) + replaced(b.drop_last(), from, to)) + last =~= replaced(
            a,
            from,
            to,
        ) + (replaced(b.drop_last(), from, to) + last));
    }
}

/// Text without the character `from` is left as it is.
pub proof fn lemma_replaced_absent(s: Seq<char>, from: char, to: Seq<char>)
    requires
        forall|i: int| 0 <= i < s.len() ==> s[i] != from,
    ensures
        replaced(s, from, to) == s,
    decreases s.len(),
{
    if s.len() == 0 {
        assert(s =~= Seq::empty());
    } else {
        lemma_replaced_absent(s.drop_last(), from, to);
        assert(s.drop_last() + seq![s.last()] =~= s);
    }
}

/// One character, replaced.
pub proof fn lemma_replaced_single(c: char, from: char, to: Seq<char>)
    ensures
        replaced(seq![c], from, to) == if c == from {
            to
        } else {
            seq![c]
        },
{
    let s = seq![c];
    assert(s.drop_last() =~= Seq::empty());
    assert(replaced(s.drop_last(), from, to) =~= Seq::empty());
    assert(Seq::<char>::empty() + to =~= to);
    assert(Seq::<char>::empty() + seq![c] =~= seq![c]);
}

/// The five replacements turn one character into what stands for it.
pub proof fn lemma_replaced_in_order_single(c: char)
    ensures
        replaced_in_order(seq![c]) == entity(c),
{
    lemma_replaced_single(c, '&', amp());
    let r1 = replaced(seq![c], '&', amp());
    if c == '&' {
        lemma_replaced_absent(r1, '"', quot());
    } else {
        lemma_replaced_single(c, '"', quot());
    }
    let r2 = replaced(r1, '"', quot());
    if c == '&' || c == '"' {
        lemma_replaced_absent(r2, '\'', apos());
    } else {
        lemma_replaced_single(c, '\'', apos());
    }
    let r3 = replaced(r2, '\'', apos());
    if c == '&' || c == '"' || c == '\'' {
        lemma_replaced_absent(r3, '<', lt());
    } else {
        lemma_replaced_single(c, '<', lt());
    }
    let r4 = replaced(r3, '<', lt());
    if c == '&' || c == '"' || c == '\'' || c == '<' {
        lemma_replaced_absent(r4, '>', gt());
    } else {
        lemma_replaced_single(c, '>', gt());
    }
}

/// The five replacements work through a concatenation piece by piece.
pub proof fn lemma_replaced_in_order_concat(a: Seq<char>, b: Seq<char>)
    ensures
        replaced_in_order(a + b) == replaced_in_order(a) + replaced_in_order(b),
{
    lemma_replaced_concat(a, b, '&', amp());
    let (a1, b1) = (replaced(a, '&', amp()), replaced(b, '&', amp()));
    lemma_replaced_concat(a1, b1, '"', quot());
    let (a2, b2) = (replaced(a1, '"', quot()), replaced(b1, '"', quot()));
    lemma_replaced_concat(a2, b2, '\'', apos());
    let (a3, b3) = (replaced(a2, '\'', apos()), replaced(b2, '\'', apos()));
    lemma_replaced_concat(a3, b3, '<', lt());
    let (a4, b4) = (replaced(a3, '<', lt()), replaced(b3, '<', lt()));
    lemma_replaced_concat(a4, b4, '>', gt());
}

/// Replacing `&` first and the other four after it, each over the whole text,
/// escapes every character exactly once: no entity written by an earlier step
/// is touched by a later one.
pub proof fn lemma_replaced_in_order_is_escaped(s: Seq<char>)
    ensures
        replaced_in_order(s) == escaped(s),
    decreases s.len(),
{
    if s.len() == 0 {
    } else {
        lemma_replaced_in_order_is_escaped(s.drop_last());
        lemma_replaced_in_order_single(s.last());
        lemma_replaced_in_order_concat(s.drop_last(), seq![s.last()]);
        assert(s.drop_last() + seq![s.last()] =~= s);
    }
}

/// Escaped text holds no reserved character but in an entity reference:
/// `"`, `'`, `<` and `>` do not occur in it, and every `&` in it begins one of
/// the five entity references.
pub proof fn lemma_escaped_has_no_raw_reserved(s: Seq<char>)
    ensures
        no_raw_reserved(escaped(s)),
    decreases s.len(),
{
    if s.len() > 0 {
        let head = escaped(s.drop_last());
        let tail = entity(s.last());
        let text = escaped(s);
        lemma_escaped_has_no_raw_reserved(s.drop_last());
        assert forall|i: int| 0 <= i < text.len() implies safe_at(text, i) by {
            if i < head.len() {
                assert(safe_at(head, i));
                assert(text[i] == head[i]);
                if head[i] == '&' {
                    let word = if occurs_at(head, i, amp()) {
                        amp()
                    } else if occurs_at(head, i, quot()) {
                        quot()
                    } else if occurs_at(head, i, apos()) {
                        apos()
                    } else if occurs_at(head, i, lt()) {
                        lt()
                    } else {
                        gt()
                    };
                    assert(occurs_at(head, i, word));
                    assert(text.subrange(i, i + word.len()) =~= head.subrange(i, i + word.len()));
                }
            } else {
                assert(text[i] == tail[i - head.len()]);
                if i == head.len() {
                    assert(text.subrange(i, i + tail.len()) =~= tail);
                }
            }
        }
    }
}

/// `str::replace` with a `char` as the pattern: a new string in which every
/// occurrence of `from` is replaced by `to` and every other character is kept.
#[verifier::external_body]
fn replace_char(s: &str, from: char, to: &str) -> (res: String)
    ensures
        res@ == replaced(s@, from, to@),
{
    s.replace(from, to)
}

/// Escapes `input` for use as an attribute value or as the text of an element.
pub fn escape_str(input: &str) -> (res: String)
    ensures
        res@ == escaped(input@),
        no_raw_reserved(res@),
{
    let a = replace_char(input, '&', "&amp;");
    let b = replace_char(a.as_str(), '"', "&quot;");
    let c = replace_char(b.as_str(), '\'', "&apos;");
    let d = replace_char(c.as_str(), '<', "&lt;");
    let e = replace_char(d.as_str(), '>', "&gt;");
    proof {
        reveal_strlit("&amp;");
        reveal_strlit("&quot;");
        reveal_strlit("&apos;");
        reveal_strlit("&lt;");
        reveal_strlit("&gt;");
        assert("&amp;"@ =~= amp());
        assert("&quot;"@ =~= quot());
        assert("&apos;"@ =~= apos());
        assert("&lt;"@ =~= lt());
        assert("&gt;"@ =~= gt());
        lemma_replaced_in_order_is_escaped(input@);
        lemma_escaped_has_no_raw_reserved(input@);
    }
    e
}

} // verus!
