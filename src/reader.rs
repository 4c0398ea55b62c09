use vstd::prelude::*;
use xmlparser::{ElementEnd, Token, Tokenizer};

use crate::error::{XmlError, XmlResult};
use crate::token::{pending, span_text, str_eq, token_debug, tokenizer_from, tokenizer_next, tokens_of};
use crate::unescape::{unescape, xml_unescape, CowStr, EscapeFault};

verus! {

/// One item of the token stream.
pub type Item<'a> = Result<Token<'a>, xmlparser::Error>;

/// Why a read fails, as the contracts state it.
pub enum ReadFault {
    Eof,
    Unexpected,
    Mismatch(Seq<char>, Seq<char>),
    Escape(EscapeFault),
    Lex(xmlparser::Error),
}

/// Whether an error value reports the fault `f`.
pub open spec fn reports(e: XmlError, f: ReadFault) -> bool {
    match f {
        ReadFault::Eof => e is UnexpectedEof,
        ReadFault::Unexpected => e is UnexpectedToken,
        ReadFault::Mismatch(x, y) => e is TagMismatch && e->expected@ == x && e->found@ == y,
        ReadFault::Escape(EscapeFault::Unterminated(s)) => e is UnterminatedEntity
            && e->entity@ == s,
        ReadFault::Escape(EscapeFault::Unrecognized(s)) => e is UnrecognizedSymbol
            && e->symbol@ == s,
        ReadFault::Lex(x) => e == XmlError::Parser(x),
    }
}

/// Text content: the last text or CDATA run before the close of `tag`
/// (`acc` so far), and the tokens after that close.
pub open spec fn text_of<'a>(s: Seq<Item<'a>>, tag: Seq<char>, acc: Seq<char>) -> Result<
    (Seq<char>, Seq<Item<'a>>),
    ReadFault,
>
    decreases s.len(),
{
    if s.len() == 0 {
        Err(ReadFault::Eof)
    } else {
        let rest = s.drop_first();
        match s[0] {
            Err(e) => Err(ReadFault::Lex(e)),
            Ok(t) => match t {
                Token::ElementEnd { end: ElementEnd::Open, .. } => text_of(rest, tag, acc),
                Token::Attribute { .. } => text_of(rest, tag, acc),
                Token::Text { text } => match unescape(span_text(text)) {
                    Ok(u) => text_of(rest, tag, u),
                    Err(f) => Err(ReadFault::Escape(f)),
                },
                Token::Cdata { text, .. } => text_of(rest, tag, span_text(text)),
                Token::ElementEnd { end: ElementEnd::Close(_, local), .. } => {
                    if span_text(local) == tag {
                        Ok((acc, rest))
                    } else {
                        Err(ReadFault::Mismatch(tag, span_text(local)))
                    }
                },
                Token::ElementEnd { end: ElementEnd::Empty, .. } => Ok((acc, rest)),
                _ => Err(ReadFault::Unexpected),
            },
        }
    }
}

/// Skipping inside an element named `tag`: `depth` elements of that name are
/// open, and `in_start` tells whether the start tag of the last one is still
/// being read. The result is what follows the close of the outermost one.
pub open spec fn skip_nested<'a>(s: Seq<Item<'a>>, tag: Seq<char>, depth: nat, in_start: bool) -> Result<
    Seq<Item<'a>>,
    ReadFault,
>
    decreases s.len(),
{
    if s.len() == 0 {
        Err(ReadFault::Eof)
    } else {
        let rest = s.drop_first();
        match s[0] {
            Err(e) => Err(ReadFault::Lex(e)),
            Ok(t) => if in_start {
                match t {
                    Token::Attribute { .. } => skip_nested(rest, tag, depth, true),
                    Token::ElementEnd { end: ElementEnd::Empty, .. } => skip_nested(
                        rest,
                        tag,
                        depth,
                        false,
                    ),
                    Token::ElementEnd { end: ElementEnd::Open, .. } => skip_nested(
                        rest,
                        tag,
                        depth + 1,
                        false,
                    ),
                    _ => Err(ReadFault::Unexpected),
                }
            } else {
                match t {
                    Token::ElementStart { local, .. } => skip_nested(
                        rest,
                        tag,
                        depth,
                        span_text(local) == tag,
                    ),
                    Token::ElementEnd { end: ElementEnd::Close(_, local), .. } => {
                        if span_text(local) != tag {
                            skip_nested(rest, tag, depth, false)
                        } else if depth <= 1 {
                            Ok(rest)
                        } else {
                            skip_nested(rest, tag, (depth - 1) as nat, false)
                        }
                    },
                    _ => skip_nested(rest, tag, depth, false),
                }
            },
        }
    }
}

/// Skipping an element named `tag` whose start token was consumed: its
/// attributes, then, unless it is empty, all up to its matching close.
pub open spec fn skip_element<'a>(s: Seq<Item<'a>>, tag: Seq<char>) -> Result<Seq<Item<'a>>, ReadFault>
    decreases s.len(),
{
    if s.len() == 0 {
        Err(ReadFault::Eof)
    } else {
        let rest = s.drop_first();
        match s[0] {
            Err(e) => Err(ReadFault::Lex(e)),
            Ok(Token::Attribute { .. }) => skip_element(rest, tag),
            Ok(Token::ElementEnd { end: ElementEnd::Empty, .. }) => Ok(rest),
            Ok(Token::ElementEnd { end: ElementEnd::Open, .. }) => skip_nested(rest, tag, 1, false),
            Ok(_) => Err(ReadFault::Unexpected),
        }
    }
}

/// Searching for the start of a child named `tag`: other children are skipped
/// whole; the result is what follows that start token.
pub open spec fn child_start<'a>(s: Seq<Item<'a>>, tag: Seq<char>) -> Result<Seq<Item<'a>>, ReadFault>
    decreases s.len(),
{
    if s.len() == 0 {
        Err(ReadFault::Eof)
    } else {
        let rest = s.drop_first();
        match s[0] {
            Err(e) => Err(ReadFault::Lex(e)),
            Ok(t) => match t {
                Token::ElementStart { local, .. } => {
                    if span_text(local) == tag {
                        Ok(rest)
                    } else {
                        match skip_element(rest, span_text(local)) {
                            Err(f) => Err(f),
                            Ok(after) => if after.len() < s.len() {
                                child_start(after, tag)
                            } else {
                                Err(ReadFault::Eof)
                            },
                        }
                    }
                },
                Token::ElementEnd { .. } => Err(ReadFault::Unexpected),
                Token::Attribute { .. } => Err(ReadFault::Unexpected),
                Token::Text { .. } => Err(ReadFault::Unexpected),
                Token::Cdata { .. } => Err(ReadFault::Unexpected),
                _ => child_start(rest, tag),
            },
        }
    }
}

/// Looking for the next child or the close of `end_tag`: `Some` of the name
/// of the next child, whose start token is left in place, or `None` with what
/// follows the close. Text, CDATA and other tokens before either are skipped.
pub open spec fn next_child<'a>(s: Seq<Item<'a>>, end_tag: Option<Seq<char>>) -> Result<
    (Option<Seq<char>>, Seq<Item<'a>>),
    ReadFault,
>
    decreases s.len(),
{
    if s.len() == 0 {
        Err(ReadFault::Eof)
    } else {
        let rest = s.drop_first();
        match s[0] {
            Err(e) => Err(ReadFault::Lex(e)),
            Ok(t) => match t {
                Token::ElementStart { local, .. } => Ok((Some(span_text(local)), s)),
                Token::ElementEnd { end: ElementEnd::Close(_, local), .. } => match end_tag {
                    Some(tag) => if span_text(local) == tag {
                        Ok((None, rest))
                    } else {
                        Err(ReadFault::Mismatch(tag, span_text(local)))
                    },
                    None => Err(ReadFault::Unexpected),
                },
                Token::ElementEnd { .. } => Err(ReadFault::Unexpected),
                Token::Attribute { .. } => Err(ReadFault::Unexpected),
                _ => next_child(rest, end_tag),
            },
        }
    }
}

/// The next attribute of the start tag being read: its name and raw value,
/// consumed; `None` at the end of the start tag, which is left in place.
pub open spec fn attribute_of<'a>(s: Seq<Item<'a>>) -> Result<
    (Option<(Seq<char>, Seq<char>)>, Seq<Item<'a>>),
    ReadFault,
> {
    if s.len() == 0 {
        Err(ReadFault::Eof)
    } else {
        match s[0] {
            Err(e) => Err(ReadFault::Lex(e)),
            Ok(Token::Attribute { local, value, .. }) => Ok(
                (Some((span_text(local), span_text(value))), s.drop_first()),
            ),
            Ok(Token::ElementEnd { end: ElementEnd::Open, .. }) => Ok((None, s)),
            Ok(Token::ElementEnd { end: ElementEnd::Empty, .. }) => Ok((None, s)),
            Ok(_) => Err(ReadFault::Unexpected),
        }
    }
}

pub open spec fn opt_view(t: Option<&str>) -> Option<Seq<char>> {
    match t {
        Some(s) => Some(s@),
        None => None,
    }
}

pub open spec fn text_view<'a>(res: Option<CowStr<'a>>) -> Seq<char> {
    match res {
        Some(c) => c@,
        None => seq![],
    }
}

/// A cursor over the tokens of one XML text, with one token of lookahead.
pub struct XmlReader<'a> {
    tokenizer: Tokenizer<'a>,
    peeked: Option<Option<Item<'a>>>,
}

impl<'a> View for XmlReader<'a> {
    type V = Seq<Item<'a>>;

    /// The items that the reader has still to hand out.
    closed spec fn view(&self) -> Seq<Item<'a>> {
        match self.peeked {
            Some(Some(x)) => seq![x] + pending(self.tokenizer),
            _ => pending(self.tokenizer),
        }
    }
}

impl<'a> XmlReader<'a> {
    /// A peeked end of stream means that the tokenizer is exhausted.
    pub closed spec fn wf(&self) -> bool {
        self.peeked == Some(None::<Item<'a>>) ==> pending(self.tokenizer).len() == 0
    }

    pub fn new(text: &'a str) -> (r: XmlReader<'a>)
        ensures
            r.wf(),
            r@ == tokens_of(text),
    {
        XmlReader { tokenizer: tokenizer_from(text), peeked: None }
    }

    /// Hands out the next item.
    pub fn next(&mut self) -> (r: Option<Item<'a>>)
        requires
            old(self).wf(),
        ensures
            final(self).wf(),
            old(self)@.len() == 0 ==> r is None && final(self)@ == old(self)@,
            old(self)@.len() > 0 ==> r == Some(old(self)@[0]) && final(self)@ == old(self)@.drop_first(),
    {
        match self.peeked.take() {
            Some(x) => {
                proof {
                    if x is Some {
                        assert(self@ =~= old(self)@.drop_first());
                    }
                }
                x
            },
            None => tokenizer_next(&mut self.tokenizer),
        }
    }

    /// The next item, left in place.
    pub fn peek(&mut self) -> (r: Option<Item<'a>>)
        requires
            old(self).wf(),
        ensures
            final(self).wf(),
            final(self)@ == old(self)@,
            old(self)@.len() == 0 ==> r is None,
            old(self)@.len() > 0 ==> r == Some(old(self)@[0]),
    {
        match self.peeked {
            Some(x) => x,
            None => {
                let x = tokenizer_next(&mut self.tokenizer);
                self.peeked = Some(x);
                proof {
                    if x is Some {
                        assert(self@ =~= old(self)@);
                    }
                }
                x
            },
        }
    }

    /// Reads the text content of the element `end_tag`, up to and with its
    /// close: the last text (decoded) or CDATA run (verbatim), or an empty
    /// value where there is none.
    pub fn read_text(&mut self, end_tag: &str) -> (r: XmlResult<CowStr<'a>>)
        requires
            old(self).wf(),
        ensures
            final(self).wf(),
            final(self)@.len() <= old(self)@.len(),
            match text_of(old(self)@, end_tag@, seq![]) {
                Ok((v, rest)) => r is Ok && r->Ok_0@ == v && final(self)@ == rest,
                Err(f) => r is Err && reports(r->Err_0, f),
            },
    {
        let mut res: Option<CowStr<'a>> = None;
        loop
            invariant
                self.wf(),
                self@.len() <= old(self)@.len(),
                text_of(old(self)@, end_tag@, seq![]) == text_of(self@, end_tag@, text_view(res)),
            decreases self@.len(),
        {
            match self.next() {
                None => {
                    return Err(XmlError::UnexpectedEof);
                },
                Some(Err(e)) => {
                    return Err(XmlError::Parser(e));
                },
                Some(Ok(token)) => match token {
                    Token::ElementEnd { end: ElementEnd::Open, .. } => {},
                    Token::Attribute { .. } => {},
                    Token::Text { text } => match xml_unescape(text.as_str()) {
                        Ok(u) => {
                            res = Some(u);
                        },
                        Err(e) => {
                            return Err(e);
                        },
                    },
                    Token::Cdata { text, .. } => {
                        res = Some(CowStr::Borrowed(text.as_str()));
                    },
                    Token::ElementEnd { end: ElementEnd::Close(_, local), .. } => {
                        let tag = local.as_str();
                        if str_eq(end_tag, tag) {
                            return Ok(Self::text_value(res));
                        } else {
                            return Err(
                                XmlError::TagMismatch {
                                    expected: end_tag.to_owned(),
                                    found: tag.to_owned(),
                                },
                            );
                        }
                    },
                    Token::ElementEnd { end: ElementEnd::Empty, .. } => {
                        return Ok(Self::text_value(res));
                    },
                    _ => {
                        return Err(XmlError::UnexpectedToken { token: token_debug(&token) });
                    },
                },
            }
        }
    }

    fn text_value(res: Option<CowStr<'a>>) -> (r: CowStr<'a>)
        ensures
            r@ == text_view(res),
    {
        match res {
            Some(c) => c,
            None => CowStr::Owned(String::new()),
        }
    }

    /// Skips, from just after the start token of an element named `end_tag`,
    /// its attributes and, unless it is empty, everything up to its matching
    /// close, counting nested elements of the same name.
    pub fn read_to_end(&mut self, end_tag: &str) -> (r: XmlResult<()>)
        requires
            old(self).wf(),
            old(self)@.len() < usize::MAX,
        ensures
            final(self).wf(),
            final(self)@.len() <= old(self)@.len(),
            match skip_element(old(self)@, end_tag@) {
                Ok(rest) => r is Ok && final(self)@ == rest,
                Err(f) => r is Err && reports(r->Err_0, f),
            },
    {
        loop
            invariant
                self.wf(),
                self@.len() <= old(self)@.len() < usize::MAX,
                skip_element(old(self)@, end_tag@) == skip_element(self@, end_tag@),
            decreases self@.len(),
        {
            match self.next() {
                None => {
                    return Err(XmlError::UnexpectedEof);
                },
                Some(Err(e)) => {
                    return Err(XmlError::Parser(e));
                },
                Some(Ok(token)) => match token {
                    Token::ElementEnd { end: ElementEnd::Empty, .. } => {
                        return Ok(());
                    },
                    Token::ElementEnd { end: ElementEnd::Open, .. } => {
                        return self.skip_inside(end_tag);
                    },
                    Token::Attribute { .. } => {},
                    _ => {
                        return Err(XmlError::UnexpectedToken { token: token_debug(&token) });
                    },
                },
            }
        }
    }

    /// Skips the content of an open element named `end_tag` through its
    /// matching close.
    fn skip_inside(&mut self, end_tag: &str) -> (r: XmlResult<()>)
        requires
            old(self).wf(),
            old(self)@.len() < usize::MAX,
        ensures
            final(self).wf(),
            final(self)@.len() <= old(self)@.len(),
            match skip_nested(old(self)@, end_tag@, 1, false) {
                Ok(rest) => r is Ok && final(self)@ == rest,
                Err(f) => r is Err && reports(r->Err_0, f),
            },
    {
        let mut depth: usize = 1;
        let mut in_start = false;
        loop
            invariant
                self.wf(),
                self@.len() <= old(self)@.len() < usize::MAX,
                1 <= depth <= old(self)@.len() - self@.len() + 1,
                skip_nested(old(self)@, end_tag@, 1, false) == skip_nested(
                    self@,
                    end_tag@,
                    depth as nat,
                    in_start,
                ),
            decreases self@.len(),
        {
            match self.next() {
                None => {
                    return Err(XmlError::UnexpectedEof);
                },
                Some(Err(e)) => {
                    return Err(XmlError::Parser(e));
                },
                Some(Ok(token)) => {
                    if in_start {
                        match token {
                            Token::Attribute { .. } => {},
                            Token::ElementEnd { end: ElementEnd::Empty, .. } => {
                                in_start = false;
                            },
                            Token::ElementEnd { end: ElementEnd::Open, .. } => {
                                depth = depth + 1;
                                in_start = false;
                            },
                            _ => {
                                return Err(
                                    XmlError::UnexpectedToken { token: token_debug(&token) },
                                );
                            },
                        }
                    } else {
                        match token {
                            Token::ElementStart { local, .. } => {
                                in_start = str_eq(end_tag, local.as_str());
                            },
                            Token::ElementEnd { end: ElementEnd::Close(_, local), .. } => {
                                if str_eq(end_tag, local.as_str()) {
                                    if depth <= 1 {
                                        return Ok(());
                                    }
                                    depth = depth - 1;
                                }
                            },
                            _ => {},
                        }
                    }
                },
            }
        }
    }

    /// Consumes tokens up to the start token of a child named `end_tag`,
    /// skipping each other child element whole.
    pub fn read_till_element_start(&mut self, end_tag: &str) -> (r: XmlResult<()>)
        requires
            old(self).wf(),
            old(self)@.len() < usize::MAX,
        ensures
            final(self).wf(),
            final(self)@.len() <= old(self)@.len(),
            match child_start(old(self)@, end_tag@) {
                Ok(rest) => r is Ok && final(self)@ == rest,
                Err(f) => r is Err && reports(r->Err_0, f),
            },
    {
        loop
            invariant
                self.wf(),
                self@.len() <= old(self)@.len() < usize::MAX,
                child_start(old(self)@, end_tag@) == child_start(self@, end_tag@),
            decreases self@.len(),
        {
            match self.next() {
                None => {
                    return Err(XmlError::UnexpectedEof);
                },
                Some(Err(e)) => {
                    return Err(XmlError::Parser(e));
                },
                Some(Ok(token)) => match token {
                    Token::ElementStart { local, .. } => {
                        let name = local.as_str();
                        if str_eq(end_tag, name) {
                            return Ok(());
                        }
                        match self.read_to_end(name) {
                            Ok(()) => {},
                            Err(e) => {
                                return Err(e);
                            },
                        }
                    },
                    Token::ElementEnd { .. } => {
                        return Err(XmlError::UnexpectedToken { token: token_debug(&token) });
                    },
                    Token::Attribute { .. } => {
                        return Err(XmlError::UnexpectedToken { token: token_debug(&token) });
                    },
                    Token::Text { .. } => {
                        return Err(XmlError::UnexpectedToken { token: token_debug(&token) });
                    },
                    Token::Cdata { .. } => {
                        return Err(XmlError::UnexpectedToken { token: token_debug(&token) });
                    },
                    _ => {},
                },
            }
        }
    }

    /// Reads the next attribute of the start tag being read: its name and raw
    /// value. `None` at the end of the start tag, which stays in place.
    pub fn find_attribute(&mut self) -> (r: XmlResult<Option<(&'a str, CowStr<'a>)>>)
        requires
            old(self).wf(),
        ensures
            final(self).wf(),
            final(self)@.len() <= old(self)@.len(),
            match attribute_of(old(self)@) {
                Ok((Some((k, v)), rest)) => r is Ok && r->Ok_0 is Some && (r->Ok_0->0).0@ == k
                    && (r->Ok_0->0).1@ == v && final(self)@ == rest,
                Ok((None, rest)) => r is Ok && r->Ok_0 is None && final(self)@ == rest,
                Err(f) => r is Err && reports(r->Err_0, f),
            },
    {
        match self.peek() {
            None => Err(XmlError::UnexpectedEof),
            Some(Ok(Token::Attribute { local, value, .. })) => {
                let key = local.as_str();
                let value = CowStr::Borrowed(value.as_str());
                self.next();
                Ok(Some((key, value)))
            },
            Some(Ok(Token::ElementEnd { end: ElementEnd::Open, .. })) => Ok(None),
            Some(Ok(Token::ElementEnd { end: ElementEnd::Empty, .. })) => Ok(None),
            Some(Ok(token)) => Err(XmlError::UnexpectedToken { token: token_debug(&token) }),
            Some(Err(e)) => {
                self.next();
                Err(XmlError::Parser(e))
            },
        }
    }

    /// Finds the next child element, whose name it returns with its start
    /// token left in place, or, with `end_tag` given, consumes the close of the
    /// current element and returns `None`.
    pub fn find_element_start(&mut self, end_tag: Option<&str>) -> (r: XmlResult<Option<&'a str>>)
        requires
            old(self).wf(),
        ensures
            final(self).wf(),
            final(self)@.len() <= old(self)@.len(),
            match next_child(old(self)@, opt_view(end_tag)) {
                Ok((Some(name), rest)) => r is Ok && r->Ok_0 is Some && r->Ok_0->0@ == name
                    && final(self)@ == rest,
                Ok((None, rest)) => r is Ok && r->Ok_0 is None && final(self)@ == rest,
                Err(f) => r is Err && reports(r->Err_0, f),
            },
    {
        loop
            invariant
                self.wf(),
                self@.len() <= old(self)@.len(),
                next_child(old(self)@, opt_view(end_tag)) == next_child(self@, opt_view(end_tag)),
            decreases self@.len(),
        {
            match self.peek() {
                None => {
                    return Err(XmlError::UnexpectedEof);
                },
                Some(Ok(token)) => match token {
                    Token::ElementStart { local, .. } => {
                        return Ok(Some(local.as_str()));
                    },
                    Token::ElementEnd { end: ElementEnd::Close(_, local), .. } => match end_tag {
                        Some(tag) => {
                            let found = local.as_str();
                            if str_eq(found, tag) {
                                self.next();
                                return Ok(None);
                            } else {
                                return Err(
                                    XmlError::TagMismatch {
                                        expected: tag.to_owned(),
                                        found: found.to_owned(),
                                    },
                                );
                            }
                        },
                        None => {
                            return Err(XmlError::UnexpectedToken { token: token_debug(&token) });
                        },
                    },
                    Token::ElementEnd { .. } => {
                        return Err(XmlError::UnexpectedToken { token: token_debug(&token) });
                    },
                    Token::Attribute { .. } => {
                        return Err(XmlError::UnexpectedToken { token: token_debug(&token) });
                    },
                    _ => {
                        self.next();
                    },
                },
                Some(Err(e)) => {
                    self.next();
                    return Err(XmlError::Parser(e));
                },
            }
        }
    }
}

} // verus!
