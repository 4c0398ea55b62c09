use vstd::prelude::*;
use xmlparser::{ElementEnd, EntityDefinition, ExternalId, StrSpan, Token, Tokenizer};

verus! {

// xmlparser's spans, tokenizer and lexical error are opaque here; its token
// enums are declared with their variants, so that the reader can match on them.
#[verifier::external_type_specification]
#[verifier::external_body]
pub struct ExStrSpan<'a>(StrSpan<'a>);

#[verifier::external_type_specification]
#[verifier::external_body]
pub struct ExTokenizer<'a>(Tokenizer<'a>);

#[verifier::external_type_specification]
#[verifier::external_body]
pub struct ExLexError(xmlparser::Error);

#[verifier::external_type_specification]
pub struct ExExternalId<'a>(ExternalId<'a>);

#[verifier::external_type_specification]
pub struct ExEntityDefinition<'a>(EntityDefinition<'a>);

#[verifier::external_type_specification]
pub struct ExElementEnd<'a>(ElementEnd<'a>);

#[verifier::external_type_specification]
pub struct ExToken<'a>(Token<'a>);

/// The characters of the source text that a span covers.
pub uninterp spec fn span_text(s: StrSpan) -> Seq<char>;

/// What a tokenizer will still yield, in order.
pub uninterp spec fn pending(t: Tokenizer) -> Seq<Result<Token, xmlparser::Error>>;

/// What a tokenizer made from a text yields.
pub uninterp spec fn tokens_of(text: &str) -> Seq<Result<Token, xmlparser::Error>>;

/// Relies on `StrSpan::as_str`: the slice of the source that the span covers.
pub assume_specification<'a>[ StrSpan::<'a>::as_str ](s: &StrSpan<'a>) -> (r: &'a str)
    ensures
        r@ == span_text(*s),
;

/// Relies on `Tokenizer::from`: a tokenizer at the start of the text.
#[verifier::external_body]
pub(crate) fn tokenizer_from<'a>(text: &'a str) -> (r: Tokenizer<'a>)
    ensures
        pending(r) == tokens_of(text),
{
    Tokenizer::from(text)
}

/// Relies on `Tokenizer::next`: the next item of the stream, or `None` at
/// its end.
#[verifier::external_body]
pub(crate) fn tokenizer_next<'a>(t: &mut Tokenizer<'a>) -> (r: Option<Result<Token<'a>, xmlparser::Error>>)
    ensures
        pending(*old(t)).len() == 0 ==> r is None && pending(*final(t)) == pending(*old(t)),
        pending(*old(t)).len() > 0 ==> r == Some(pending(*old(t))[0]) && pending(*final(t))
            == pending(*old(t)).drop_first(),
{
    t.next()
}

/// Relies on `str`'s `==`: two string slices are equal when they hold the same
/// characters.
#[verifier::external_body]
pub(crate) fn str_eq(a: &str, b: &str) -> (r: bool)
    ensures
        r == (a@ == b@),
{
    a == b
}

/// Relies on the `Debug` impl of `Token`, for error messages only.
#[verifier::external_body]
pub(crate) fn token_debug(t: &Token) -> (r: String) {
    format!("{:?}", t)
}

} // verus!
