use vstd::prelude::*;
use xmlparser::{ElementEnd, Token};

use crate::reader::{
    attribute_of, child_start, next_child, skip_element, skip_nested, text_of, Item, ReadFault,
};
use crate::token::span_text;
use crate::unescape::{escape, lemma_unescape_escape, unescape};

verus! {

/// `n` copies of one item.
pub open spec fn repeat_item<'a>(x: Item<'a>, n: nat) -> Seq<Item<'a>>
    decreases n,
{
    if n == 0 {
        seq![]
    } else {
        seq![x] + repeat_item(x, (n - 1) as nat)
    }
}

/// `n` start tags, each followed by its open marker: `n` nested elements
/// whose content is still to come.
pub open spec fn nested_opens<'a>(start: Item<'a>, open: Item<'a>, n: nat) -> Seq<Item<'a>>
    decreases n,
{
    if n == 0 {
        seq![]
    } else {
        seq![start, open] + nested_opens(start, open, (n - 1) as nat)
    }
}

pub open spec fn is_start_of<'a>(t: Token<'a>, tag: Seq<char>) -> bool {
    t matches Token::ElementStart { local, .. } && span_text(local) == tag
}

pub open spec fn is_close_of<'a>(t: Token<'a>, tag: Seq<char>) -> bool {
    t matches Token::ElementEnd { end: ElementEnd::Close(_, local), .. } && span_text(local) == tag
}

pub open spec fn is_open<'a>(t: Token<'a>) -> bool {
    t matches Token::ElementEnd { end: ElementEnd::Open, .. }
}

pub open spec fn is_empty<'a>(t: Token<'a>) -> bool {
    t matches Token::ElementEnd { end: ElementEnd::Empty, .. }
}

/// Reading back an element that a writer emitted as `<e name="value">text</e>`
/// or `<e name="value"/>`, from just after its start token: the attribute comes
/// back with the raw value that the writer wrote, which decodes to `value`;
/// the attribute list then ends; the text content decodes to `text`, and
/// what follows the element is left.
pub proof fn lemma_round_trip<'a>(
    attr: Token<'a>,
    open: Token<'a>,
    run: Token<'a>,
    close: Token<'a>,
    empty: Token<'a>,
    rest: Seq<Item<'a>>,
    e: Seq<char>,
    name: Seq<char>,
    value: Seq<char>,
    text: Seq<char>,
)
    requires
        attr matches Token::Attribute { local, value: v, .. } && span_text(local) == name
            && span_text(v) == escape(value),
        is_open(open),
        run matches Token::Text { text: x } && span_text(x) == escape(text),
        is_close_of(close, e),
        is_empty(empty),
    ensures
        ({
            let s = seq![Ok(attr), Ok(open), Ok(run), Ok(close)] + rest;
            &&& attribute_of(s) == Ok::<_, ReadFault>((Some((name, escape(value))), s.drop_first()))
            &&& attribute_of(s.drop_first()) == Ok::<_, ReadFault>((None::<(Seq<char>, Seq<char>)>, s.drop_first()))
            &&& text_of(s.drop_first(), e, seq![]) == Ok::<_, ReadFault>((text, rest))
        }),
        ({
            let s = seq![Ok(attr), Ok(empty)] + rest;
            &&& attribute_of(s) == Ok::<_, ReadFault>((Some((name, escape(value))), s.drop_first()))
            &&& attribute_of(s.drop_first()) == Ok::<_, ReadFault>((None::<(Seq<char>, Seq<char>)>, s.drop_first()))
            &&& text_of(s.drop_first(), e, seq![]) == Ok::<_, ReadFault>((Seq::<char>::empty(), rest))
        }),
        unescape(escape(value)) == Ok::<Seq<char>, crate::unescape::EscapeFault>(value),
{
    lemma_unescape_escape(value);
    lemma_unescape_escape(text);
    let s = seq![Ok(attr), Ok(open), Ok(run), Ok(close)] + rest;
    let s1 = s.drop_first();
    let s2 = seq![Ok(run), Ok(close)] + rest;
    let s3 = seq![Ok(close)] + rest;
    assert(s[0] == Ok::<Token<'a>, xmlparser::Error>(attr));
    assert(s1 =~= seq![Ok(open)] + s2);
    assert(s1[0] == Ok::<Token<'a>, xmlparser::Error>(open));
    assert(s1.drop_first() =~= s2);
    assert(s2[0] == Ok::<Token<'a>, xmlparser::Error>(run));
    assert(s2.drop_first() =~= s3);
    assert(s3[0] == Ok::<Token<'a>, xmlparser::Error>(close));
    assert(s3.drop_first() =~= rest);
    assert(text_of(s3, e, text) == Ok::<_, ReadFault>((text, rest)));
    assert(text_of(s2, e, seq![]) == Ok::<_, ReadFault>((text, rest)));
    let u = seq![Ok(attr), Ok(empty)] + rest;
    assert(u.drop_first().drop_first() =~= rest);
}

proof fn lemma_closes<'a>(close: Token<'a>, tag: Seq<char>, d: nat, rest: Seq<Item<'a>>)
    requires
        is_close_of(close, tag),
        d >= 1,
    ensures
        skip_nested(repeat_item(Ok(close), d) + rest, tag, d, false) == Ok::<_, ReadFault>(rest),
    decreases d,
{
    let s = repeat_item(Ok(close), d) + rest;
    assert(s.drop_first() =~= repeat_item(Ok(close), (d - 1) as nat) + rest);
    if d > 1 {
        lemma_closes(close, tag, (d - 1) as nat, rest);
    } else {
        assert(s.drop_first() =~= rest);
    }
}

proof fn lemma_opens<'a>(
    start: Token<'a>,
    open: Token<'a>,
    close: Token<'a>,
    tag: Seq<char>,
    m: nat,
    d: nat,
    inner: Seq<Item<'a>>,
    rest: Seq<Item<'a>>,
)
    requires
        is_start_of(start, tag),
        is_open(open),
        is_close_of(close, tag),
        d >= 1,
        forall|k: nat| #![trigger skip_nested(inner + repeat_item(Ok(close), k) + rest, tag, k, false)]
            k >= 1 ==> skip_nested(inner + repeat_item(Ok(close), k) + rest, tag, k, false)
                == skip_nested(repeat_item(Ok(close), k) + rest, tag, k, false),
    ensures
        skip_nested(
            nested_opens(Ok(start), Ok(open), m) + inner + repeat_item(Ok(close), d + m) + rest,
            tag,
            d,
            false,
        ) == Ok::<_, ReadFault>(rest),
    decreases m,
{
    let s = nested_opens(Ok(start), Ok(open), m) + inner + repeat_item(Ok(close), d + m) + rest;
    if m == 0 {
        assert(s =~= inner + repeat_item(Ok(close), d) + rest);
        lemma_closes(close, tag, d, rest);
    } else {
        let s2 = nested_opens(Ok(start), Ok(open), (m - 1) as nat) + inner + repeat_item(
            Ok(close),
            (d + 1) + (m - 1) as nat,
        ) + rest;
        assert(s[0] == Ok::<Token<'a>, xmlparser::Error>(start));
        assert(s.drop_first()[0] == Ok::<Token<'a>, xmlparser::Error>(open));
        assert(s.drop_first().drop_first() =~= s2);
        assert(skip_nested(s.drop_first(), tag, d, true) == skip_nested(s2, tag, d + 1, false));
        lemma_opens(start, open, close, tag, (m - 1) as nat, d + 1, inner, rest);
    }
}

/// Skipping an element whose content holds same-name elements nested to any
/// depth `m`, from its open marker on, consumes exactly through its own close,
/// whether the innermost element has content or is self-closing.
pub proof fn lemma_skip_same_name_nesting<'a>(
    start: Token<'a>,
    open: Token<'a>,
    close: Token<'a>,
    empty: Token<'a>,
    tag: Seq<char>,
    m: nat,
    rest: Seq<Item<'a>>,
)
    requires
        is_start_of(start, tag),
        is_open(open),
        is_close_of(close, tag),
        is_empty(empty),
    ensures
        skip_element(
            seq![Ok(open)] + nested_opens(Ok(start), Ok(open), m) + repeat_item(Ok(close), m + 1)
                + rest,
            tag,
        ) == Ok::<_, ReadFault>(rest),
        skip_element(
            seq![Ok(open)] + nested_opens(Ok(start), Ok(open), m) + seq![Ok(start), Ok(empty)]
                + repeat_item(Ok(close), m + 1) + rest,
            tag,
        ) == Ok::<_, ReadFault>(rest),
{
    let none: Seq<Item<'a>> = seq![];
    let pair: Seq<Item<'a>> = seq![Ok(start), Ok(empty)];
    assert forall|k: nat| #![trigger skip_nested(none + repeat_item(Ok(close), k) + rest, tag, k, false)]
        k >= 1 implies skip_nested(none + repeat_item(Ok(close), k) + rest, tag, k, false)
        == skip_nested(repeat_item(Ok(close), k) + rest, tag, k, false) by {
        assert(none + repeat_item(Ok(close), k) + rest =~= repeat_item(Ok(close), k) + rest);
    }
    assert forall|k: nat| #![trigger skip_nested(pair + repeat_item(Ok(close), k) + rest, tag, k, false)]
        k >= 1 implies skip_nested(pair + repeat_item(Ok(close), k) + rest, tag, k, false)
        == skip_nested(repeat_item(Ok(close), k) + rest, tag, k, false) by {
        let x = pair + repeat_item(Ok(close), k) + rest;
        assert(x[0] == Ok::<Token<'a>, xmlparser::Error>(start));
        assert(x.drop_first()[0] == Ok::<Token<'a>, xmlparser::Error>(empty));
        assert(x.drop_first().drop_first() =~= repeat_item(Ok(close), k) + rest);
        assert(skip_nested(x.drop_first(), tag, k, true) == skip_nested(
            repeat_item(Ok(close), k) + rest,
            tag,
            k,
            false,
        ));
    }
    lemma_opens(start, open, close, tag, m, 1, none, rest);
    lemma_opens(start, open, close, tag, m, 1, pair, rest);
    let s1 = seq![Ok(open)] + nested_opens(Ok(start), Ok(open), m) + repeat_item(Ok(close), m + 1) + rest;
    assert(s1.drop_first() =~= nested_opens(Ok(start), Ok(open), m) + none + repeat_item(
        Ok(close),
        1 + m,
    ) + rest);
    let s2 = seq![Ok(open)] + nested_opens(Ok(start), Ok(open), m) + pair + repeat_item(
        Ok(close),
        m + 1,
    ) + rest;
    assert(s2.drop_first() =~= nested_opens(Ok(start), Ok(open), m) + pair + repeat_item(
        Ok(close),
        1 + m,
    ) + rest);
}

/// A close tag of another name where the close of `expected` is due is a
/// mismatch that names both, for reading text and for looking for children.
pub proof fn lemma_close_mismatch<'a>(
    open: Token<'a>,
    close: Token<'a>,
    rest: Seq<Item<'a>>,
    expected: Seq<char>,
    found: Seq<char>,
    acc: Seq<char>,
)
    requires
        is_open(open),
        is_close_of(close, found),
        found != expected,
    ensures
        text_of(seq![Ok(open), Ok(close)] + rest, expected, acc) == Err::<(Seq<char>, Seq<Item<'a>>), _>(
            ReadFault::Mismatch(expected, found),
        ),
        next_child(seq![Ok(close)] + rest, Some(expected)) == Err::<(Option<Seq<char>>, Seq<Item<'a>>), _>(
            ReadFault::Mismatch(expected, found),
        ),
{
    let s = seq![Ok(open), Ok(close)] + rest;
    assert(s[0] == Ok::<Token<'a>, xmlparser::Error>(open));
    assert(s.drop_first() =~= seq![Ok(close)] + rest);
    assert((seq![Ok(close)] + rest)[0] == Ok::<Token<'a>, xmlparser::Error>(close));
    assert(text_of(seq![Ok(close)] + rest, expected, acc) == Err::<(Seq<char>, Seq<Item<'a>>), _>(
        ReadFault::Mismatch(expected, found),
    ));
}


/// Every item of `a` is an attribute token.
pub open spec fn all_attributes<'a>(a: Seq<Item<'a>>) -> bool {
    forall|i: int| 0 <= i < a.len() ==> (#[trigger] a[i]) matches Ok(Token::Attribute { .. })
}

/// Content that leaves the count of open `tag` elements as it found it:
/// skipping through it at any depth ends at the same depth.
pub open spec fn depth_neutral<'a>(c: Seq<Item<'a>>, tag: Seq<char>) -> bool {
    forall|t: Seq<Item<'a>>, d: nat|
        d >= 1 ==> #[trigger] skip_nested(c + t, tag, d, false) == skip_nested(t, tag, d, false)
}

/// A run of siblings that the search for a child named `tag` passes over.
pub open spec fn passed_over<'a>(w: Seq<Item<'a>>, tag: Seq<char>) -> bool {
    forall|t: Seq<Item<'a>>| #[trigger] child_start(w + t, tag) == child_start(t, tag)
}

proof fn lemma_attributes_in_start<'a>(a: Seq<Item<'a>>, u: Seq<Item<'a>>, tag: Seq<char>, d: nat)
    requires
        all_attributes(a),
    ensures
        skip_nested(a + u, tag, d, true) == skip_nested(u, tag, d, true),
    decreases a.len(),
{
    if a.len() > 0 {
        assert(a[0] matches Ok(Token::Attribute { .. }));
        assert((a + u)[0] == a[0]);
        assert((a + u).drop_first() =~= a.drop_first() + u);
        assert(all_attributes(a.drop_first())) by {
            assert forall|i: int| 0 <= i < a.drop_first().len() implies (#[trigger] a.drop_first()[i])
                matches Ok(Token::Attribute { .. }) by {
                assert(a.drop_first()[i] == a[i + 1]);
            }
        }
        lemma_attributes_in_start(a.drop_first(), u, tag, d);
    } else {
        assert(a + u =~= u);
    }
}

proof fn lemma_attributes_before_end<'a>(a: Seq<Item<'a>>, u: Seq<Item<'a>>, tag: Seq<char>)
    requires
        all_attributes(a),
    ensures
        skip_element(a + u, tag) == skip_element(u, tag),
    decreases a.len(),
{
    if a.len() > 0 {
        assert(a[0] matches Ok(Token::Attribute { .. }));
        assert((a + u)[0] == a[0]);
        assert((a + u).drop_first() =~= a.drop_first() + u);
        assert(all_attributes(a.drop_first())) by {
            assert forall|i: int| 0 <= i < a.drop_first().len() implies (#[trigger] a.drop_first()[i])
                matches Ok(Token::Attribute { .. }) by {
                assert(a.drop_first()[i] == a[i + 1]);
            }
        }
        lemma_attributes_before_end(a.drop_first(), u, tag);
    } else {
        assert(a + u =~= u);
    }
}

/// Any token other than a start or a close of `tag` leaves the depth as it is.
pub proof fn lemma_neutral_token<'a>(x: Token<'a>, tag: Seq<char>)
    requires
        !is_start_of(x, tag),
        !is_close_of(x, tag),
    ensures
        depth_neutral(seq![Ok(x)], tag),
{
    assert forall|t: Seq<Item<'a>>, d: nat| d >= 1 implies #[trigger] skip_nested(
        seq![Ok(x)] + t,
        tag,
        d,
        false,
    ) == skip_nested(t, tag, d, false) by {
        let s = seq![Ok(x)] + t;
        assert(s[0] == Ok::<Token<'a>, xmlparser::Error>(x));
        assert(s.drop_first() =~= t);
    }
}

/// Depth-neutral runs stay depth-neutral when joined.
pub proof fn lemma_neutral_concat<'a>(a: Seq<Item<'a>>, b: Seq<Item<'a>>, tag: Seq<char>)
    requires
        depth_neutral(a, tag),
        depth_neutral(b, tag),
    ensures
        depth_neutral(a + b, tag),
{
    assert forall|t: Seq<Item<'a>>, d: nat| d >= 1 implies #[trigger] skip_nested(
        (a + b) + t,
        tag,
        d,
        false,
    ) == skip_nested(t, tag, d, false) by {
        assert((a + b) + t =~= a + (b + t));
        assert(skip_nested(a + (b + t), tag, d, false) == skip_nested(b + t, tag, d, false));
        assert(skip_nested(b + t, tag, d, false) == skip_nested(t, tag, d, false));
    }
}

/// An element named `tag`, with its attributes and a depth-neutral content,
/// is depth-neutral as a whole; so is a self-closing one.
pub proof fn lemma_neutral_element<'a>(
    start: Token<'a>,
    attrs: Seq<Item<'a>>,
    open: Token<'a>,
    empty: Token<'a>,
    c: Seq<Item<'a>>,
    close: Token<'a>,
    tag: Seq<char>,
)
    requires
        is_start_of(start, tag),
        all_attributes(attrs),
        is_open(open),
        is_empty(empty),
        depth_neutral(c, tag),
        is_close_of(close, tag),
    ensures
        depth_neutral(seq![Ok(start)] + attrs + seq![Ok(open)] + c + seq![Ok(close)], tag),
        depth_neutral(seq![Ok(start)] + attrs + seq![Ok(empty)], tag),
{
    let e = seq![Ok(start)] + attrs + seq![Ok(open)] + c + seq![Ok(close)];
    assert forall|t: Seq<Item<'a>>, d: nat| d >= 1 implies #[trigger] skip_nested(e + t, tag, d, false)
        == skip_nested(t, tag, d, false) by {
        let s = e + t;
        let u = seq![Ok(open)] + (c + (seq![Ok(close)] + t));
        assert(s[0] == Ok::<Token<'a>, xmlparser::Error>(start));
        assert(s.drop_first() =~= attrs + u);
        lemma_attributes_in_start(attrs, u, tag, d);
        assert(u[0] == Ok::<Token<'a>, xmlparser::Error>(open));
        assert(u.drop_first() =~= c + (seq![Ok(close)] + t));
        assert(skip_nested(c + (seq![Ok(close)] + t), tag, d + 1, false) == skip_nested(
            seq![Ok(close)] + t,
            tag,
            d + 1,
            false,
        ));
        let v = seq![Ok(close)] + t;
        assert(v[0] == Ok::<Token<'a>, xmlparser::Error>(close));
        assert(v.drop_first() =~= t);
        assert(skip_nested(v, tag, d + 1, false) == skip_nested(t, tag, d, false));
    }
    let f = seq![Ok(start)] + attrs + seq![Ok(empty)];
    assert forall|t: Seq<Item<'a>>, d: nat| d >= 1 implies #[trigger] skip_nested(f + t, tag, d, false)
        == skip_nested(t, tag, d, false) by {
        let s = f + t;
        let u = seq![Ok(empty)] + t;
        assert(s[0] == Ok::<Token<'a>, xmlparser::Error>(start));
        assert(s.drop_first() =~= attrs + u);
        lemma_attributes_in_start(attrs, u, tag, d);
        assert(u[0] == Ok::<Token<'a>, xmlparser::Error>(empty));
        assert(u.drop_first() =~= t);
    }
}

/// Skipping an element named `tag` whose start token was consumed: after its
/// attributes, its open marker, and any depth-neutral content (same-name
/// descendants nested to any depth included), skipping ends exactly after its
/// own close and leaves what follows.
pub proof fn lemma_skip_element_exact<'a>(
    attrs: Seq<Item<'a>>,
    open: Token<'a>,
    c: Seq<Item<'a>>,
    close: Token<'a>,
    t: Seq<Item<'a>>,
    tag: Seq<char>,
)
    requires
        all_attributes(attrs),
        is_open(open),
        depth_neutral(c, tag),
        is_close_of(close, tag),
    ensures
        skip_element(attrs + seq![Ok(open)] + c + seq![Ok(close)] + t, tag) == Ok::<_, ReadFault>(t),
{
    let u = seq![Ok(open)] + (c + (seq![Ok(close)] + t));
    assert(attrs + seq![Ok(open)] + c + seq![Ok(close)] + t =~= attrs + u);
    lemma_attributes_before_end(attrs, u, tag);
    assert(u[0] == Ok::<Token<'a>, xmlparser::Error>(open));
    assert(u.drop_first() =~= c + (seq![Ok(close)] + t));
    assert(skip_nested(c + (seq![Ok(close)] + t), tag, 1, false) == skip_nested(
        seq![Ok(close)] + t,
        tag,
        1,
        false,
    ));
    let v = seq![Ok(close)] + t;
    assert(v[0] == Ok::<Token<'a>, xmlparser::Error>(close));
    assert(v.drop_first() =~= t);
}

/// A whole element named other than `tag` (its start token, then what
/// skipping it consumes, whatever follows) is passed over by the search for a
/// child named `tag`.
pub proof fn lemma_passed_over_element<'a>(
    start: Token<'a>,
    body: Seq<Item<'a>>,
    name: Seq<char>,
    tag: Seq<char>,
)
    requires
        is_start_of(start, name),
        name != tag,
        forall|t: Seq<Item<'a>>| #[trigger] skip_element(body + t, name) == Ok::<_, ReadFault>(t),
    ensures
        passed_over(seq![Ok(start)] + body, tag),
{
    assert forall|t: Seq<Item<'a>>| #[trigger] child_start((seq![Ok(start)] + body) + t, tag)
        == child_start(t, tag) by {
        let s = (seq![Ok(start)] + body) + t;
        assert(s[0] == Ok::<Token<'a>, xmlparser::Error>(start));
        assert(s.drop_first() =~= body + t);
        assert(skip_element(body + t, name) == Ok::<_, ReadFault>(t));
    }
}

/// A comment between siblings is passed over by the search for a child.
pub proof fn lemma_passed_over_comment<'a>(x: Token<'a>, tag: Seq<char>)
    requires
        x matches Token::Comment { .. },
    ensures
        passed_over(seq![Ok(x)], tag),
{
    assert forall|t: Seq<Item<'a>>| #[trigger] child_start(seq![Ok(x)] + t, tag) == child_start(t, tag) by {
        let s = seq![Ok(x)] + t;
        assert(s[0] == Ok::<Token<'a>, xmlparser::Error>(x));
        assert(s.drop_first() =~= t);
    }
}

/// Runs of passed-over siblings join into one.
pub proof fn lemma_passed_over_concat<'a>(a: Seq<Item<'a>>, b: Seq<Item<'a>>, tag: Seq<char>)
    requires
        passed_over(a, tag),
        passed_over(b, tag),
    ensures
        passed_over(a + b, tag),
{
    assert forall|t: Seq<Item<'a>>| #[trigger] child_start((a + b) + t, tag) == child_start(t, tag) by {
        assert((a + b) + t =~= a + (b + t));
        assert(child_start(a + (b + t), tag) == child_start(b + t, tag));
    }
}

/// Skip-and-continue: after any run of passed-over siblings, the search for a
/// child named `tag` stops right after that child's start token.
pub proof fn lemma_skip_to_child<'a>(w: Seq<Item<'a>>, start: Token<'a>, t: Seq<Item<'a>>, tag: Seq<char>)
    requires
        passed_over(w, tag),
        is_start_of(start, tag),
    ensures
        child_start(w + seq![Ok(start)] + t, tag) == Ok::<_, ReadFault>(t),
{
    let u = seq![Ok(start)] + t;
    assert(w + seq![Ok(start)] + t =~= w + u);
    assert(child_start(w + u, tag) == child_start(u, tag));
    assert(u[0] == Ok::<Token<'a>, xmlparser::Error>(start));
    assert(u.drop_first() =~= t);
}
} // verus!
