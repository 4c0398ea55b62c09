use vstd::prelude::*;

use vstd::std_specs::iter::IteratorSpec;

use crate::error::XmlError;

verus! {

/// A text value: a slice of the source where nothing was decoded, an owned
/// string otherwise.
#[derive(Debug)]
pub enum CowStr<'a> {
    Borrowed(&'a str),
    Owned(String),
}

impl<'a> View for CowStr<'a> {
    type V = Seq<char>;

    open spec fn view(&self) -> Seq<char> {
        match self {
            CowStr::Borrowed(s) => s@,
            CowStr::Owned(s) => s@,
        }
    }
}

impl<'a> CowStr<'a> {
    /// The characters of the value, whichever form holds them.
    pub fn as_str(&self) -> (r: &str)
        ensures
            r@ == self@,
    {
        match self {
            CowStr::Borrowed(s) => s,
            CowStr::Owned(s) => s.as_str(),
        }
    }

    pub fn is_borrowed(&self) -> (r: bool)
        ensures
            r == self is Borrowed,
    {
        match self {
            CowStr::Borrowed(_) => true,
            CowStr::Owned(_) => false,
        }
    }
}

/// Why a text run cannot be decoded.
pub enum EscapeFault {
    /// From an `&` without a `;` after it to the end of the run.
    Unterminated(Seq<char>),
    /// The characters between `&` and `;`.
    Unrecognized(Seq<char>),
}

/// The value of a digit in base `radix` (10 or 16).
pub open spec fn digit_value(c: char, radix: nat) -> Option<nat> {
    if '0' <= c && c <= '9' {
        Some((c as nat - '0' as nat) as nat)
    } else if radix == 16 && 'a' <= c && c <= 'f' {
        Some((c as nat - 'a' as nat + 10) as nat)
    } else if radix == 16 && 'A' <= c && c <= 'F' {
        Some((c as nat - 'A' as nat + 10) as nat)
    } else {
        None
    }
}

pub open spec fn all_digits(d: Seq<char>, radix: nat) -> bool {
    forall|k: int| 0 <= k < d.len() ==> (#[trigger] digit_value(d[k], radix)) is Some
}

/// The number that the digits `d` write in base `radix`.
pub open spec fn digits_value(d: Seq<char>, radix: nat) -> nat
    decreases d.len(),
{
    if d.len() == 0 {
        0
    } else {
        let low = match digit_value(d.last(), radix) {
            Some(v) => v,
            None => 0,
        };
        digits_value(d.drop_last(), radix) * radix + low
    }
}

/// Whether `v` is a Unicode scalar value, that is, the code of a `char`.
pub open spec fn is_scalar_value(v: nat) -> bool {
    v < 0xD800 || (0xE000 <= v && v <= 0x10FFFF)
}

/// The character whose code the digits `d` write in base `radix`.
pub open spec fn code_char(d: Seq<char>, radix: nat) -> Option<char> {
    if d.len() > 0 && all_digits(d, radix) && is_scalar_value(digits_value(d, radix)) {
        Some((digits_value(d, radix) as u32) as char)
    } else {
        None
    }
}

/// The character that the reference `&e;` stands for: one of the five named
/// entities, or `#` and a decimal code, or `#x` and a hexadecimal code.
pub open spec fn entity_char(e: Seq<char>) -> Option<char> {
    if e == seq!['q', 'u', 'o', 't'] {
        Some('"')
    } else if e == seq!['a', 'p', 'o', 's'] {
        Some('\'')
    } else if e == seq!['l', 't'] {
        Some('<')
    } else if e == seq!['g', 't'] {
        Some('>')
    } else if e == seq!['a', 'm', 'p'] {
        Some('&')
    } else if e.len() >= 2 && e[0] == '#' && e[1] == 'x' {
        code_char(e.subrange(2, e.len() as int), 16)
    } else if e.len() >= 1 && e[0] == '#' {
        code_char(e.subrange(1, e.len() as int), 10)
    } else {
        None
    }
}

/// The index of the first `;` of `s` at or after `k`, or `s.len()` if there
/// is none.
pub open spec fn semi_from(s: Seq<char>, k: int) -> int
    decreases s.len() - k,
{
    if k >= s.len() {
        s.len() as int
    } else if s[k] == ';' {
        k
    } else {
        semi_from(s, k + 1)
    }
}

/// `s` decoded from index `i` on.
pub open spec fn unescape_at(s: Seq<char>, i: int) -> Result<Seq<char>, EscapeFault>
    decreases s.len() - i via unescape_at_decreases
{
    if i < 0 || i >= s.len() {
        Ok(seq![])
    } else if s[i] != '&' {
        prepend(seq![s[i]], unescape_at(s, i + 1))
    } else {
        let j = semi_from(s, i + 1);
        if j >= s.len() {
            Err(EscapeFault::Unterminated(s.subrange(i, s.len() as int)))
        } else {
            match entity_char(s.subrange(i + 1, j)) {
                None => Err(EscapeFault::Unrecognized(s.subrange(i + 1, j))),
                Some(c) => prepend(seq![c], unescape_at(s, j + 1)),
            }
        }
    }
}

#[via_fn]
proof fn unescape_at_decreases(s: Seq<char>, i: int) {
    if 0 <= i < s.len() && s[i] == '&' {
        lemma_semi_from_bounds(s, i + 1);
    }
}

/// A text run with its character references decoded.
pub open spec fn unescape(s: Seq<char>) -> Result<Seq<char>, EscapeFault> {
    unescape_at(s, 0)
}

pub open spec fn prepend(p: Seq<char>, r: Result<Seq<char>, EscapeFault>) -> Result<
    Seq<char>,
    EscapeFault,
> {
    match r {
        Ok(x) => Ok(p + x),
        Err(f) => Err(f),
    }
}

proof fn lemma_semi_from_bounds(s: Seq<char>, k: int)
    requires
        0 <= k <= s.len(),
    ensures
        k <= semi_from(s, k) <= s.len(),
    decreases s.len() - k,
{
    if k < s.len() && s[k] != ';' {
        lemma_semi_from_bounds(s, k + 1);
    }
}

proof fn lemma_semi_from_at(s: Seq<char>, k: int, j: int)
    requires
        0 <= k <= j <= s.len(),
        forall|m: int| k <= m < j ==> s[m] != ';',
        j < s.len() ==> s[j] == ';',
    ensures
        semi_from(s, k) == j,
    decreases j - k,
{
    if k < j {
        lemma_semi_from_at(s, k + 1, j);
    }
}

/// With no `&` from `i` on, decoding changes nothing.
proof fn lemma_no_reference(s: Seq<char>, i: int)
    requires
        0 <= i <= s.len(),
        forall|m: int| i <= m < s.len() ==> s[m] != '&',
    ensures
        unescape_at(s, i) == Ok::<Seq<char>, EscapeFault>(s.subrange(i, s.len() as int)),
    decreases s.len() - i,
{
    if i < s.len() {
        lemma_no_reference(s, i + 1);
        assert(seq![s[i]] + s.subrange(i + 1, s.len() as int) =~= s.subrange(i, s.len() as int));
    } else {
        assert(s.subrange(i, s.len() as int) =~= seq![]);
    }
}

proof fn lemma_prepend_push(p: Seq<char>, c: char, r: Result<Seq<char>, EscapeFault>)
    ensures
        prepend(p, prepend(seq![c], r)) == prepend(p.push(c), r),
{
    if let Ok(x) = r {
        assert(p + (seq![c] + x) =~= p.push(c) + x);
    }
}

proof fn lemma_digits_grow(d: Seq<char>, j: int, radix: nat)
    requires
        0 <= j <= d.len(),
        radix >= 1,
    ensures
        digits_value(d, radix) >= digits_value(d.subrange(0, j), radix),
    decreases d.len(),
{
    if j < d.len() {
        let p = d.drop_last();
        lemma_digits_grow(p, j, radix);
        assert(p.subrange(0, j) =~= d.subrange(0, j));
        let a = digits_value(p, radix);
        assert(a * radix >= a) by (nonlinear_arith)
            requires
                radix >= 1,
        ;
    } else {
        assert(d.subrange(0, j) =~= d);
    }
}

/// How a writer escapes one character of a text value.
pub open spec fn escape_char(c: char) -> Seq<char> {
    if c == '&' {
        seq!['&', 'a', 'm', 'p', ';']
    } else if c == '<' {
        seq!['&', 'l', 't', ';']
    } else if c == '>' {
        seq!['&', 'g', 't', ';']
    } else if c == '"' {
        seq!['&', 'q', 'u', 'o', 't', ';']
    } else if c == '\'' {
        seq!['&', 'a', 'p', 'o', 's', ';']
    } else {
        seq![c]
    }
}

/// A text value as a writer escapes it.
pub open spec fn escape(s: Seq<char>) -> Seq<char>
    decreases s.len(),
{
    if s.len() == 0 {
        seq![]
    } else {
        escape_char(s[0]) + escape(s.drop_first())
    }
}

proof fn lemma_semi_shift(s: Seq<char>, i: int, k: int)
    requires
        0 <= i <= k <= s.len(),
    ensures
        semi_from(s, k) == semi_from(s.subrange(i, s.len() as int), k - i) + i,
    decreases s.len() - k,
{
    if k < s.len() && s[k] != ';' {
        lemma_semi_shift(s, i, k + 1);
    }
}

/// Decoding from index `i` looks at nothing before `i`.
proof fn lemma_unescape_suffix(s: Seq<char>, i: int)
    requires
        0 <= i <= s.len(),
    ensures
        unescape_at(s, i) == unescape(s.subrange(i, s.len() as int)),
    decreases s.len() - i,
{
    let t = s.subrange(i, s.len() as int);
    if i < s.len() {
        if s[i] != '&' {
            lemma_unescape_suffix(s, i + 1);
            lemma_unescape_suffix(t, 1);
            assert(t.subrange(1, t.len() as int) =~= s.subrange(i + 1, s.len() as int));
        } else {
            lemma_semi_shift(s, i, i + 1);
            lemma_semi_from_bounds(s, i + 1);
            let j = semi_from(s, i + 1);
            assert(t.subrange(0, t.len() as int) =~= t);
            if j < s.len() {
                assert(t.subrange(1, j - i) =~= s.subrange(i + 1, j));
                lemma_unescape_suffix(s, j + 1);
                lemma_unescape_suffix(t, j - i + 1);
                assert(t.subrange(j - i + 1, t.len() as int) =~= s.subrange(j + 1, s.len() as int));
            }
        }
    } else {
        assert(t.len() == 0);
    }
}

proof fn lemma_reference_piece(name: Seq<char>, c: char, tail: Seq<char>)
    requires
        entity_char(name) == Some(c),
        forall|k: int| 0 <= k < name.len() ==> name[k] != ';',
    ensures
        unescape(seq!['&'] + name + seq![';'] + tail) == prepend(seq![c], unescape(tail)),
{
    let x = seq!['&'] + name + seq![';'] + tail;
    let m = name.len() as int + 2;
    assert forall|k: int| 1 <= k < m - 1 implies x[k] != ';' by {
        assert(x[k] == name[k - 1]);
    }
    lemma_semi_from_at(x, 1, m - 1);
    assert(x.subrange(1, m - 1) =~= name);
    lemma_unescape_suffix(x, m);
    assert(x.subrange(m, x.len() as int) =~= tail);
}

/// Decoding undoes escaping: a text value written escaped reads back as the
/// same value.
pub proof fn lemma_unescape_escape(s: Seq<char>)
    ensures
        unescape(escape(s)) == Ok::<Seq<char>, EscapeFault>(s),
    decreases s.len(),
{
    if s.len() == 0 {
        assert(unescape(escape(s)) == Ok::<Seq<char>, EscapeFault>(seq![]));
        assert(s =~= seq![]);
    } else {
        let c = s[0];
        let rest = s.drop_first();
        let e2 = escape(rest);
        lemma_unescape_escape(rest);
        assert(seq![c] + rest =~= s);
        if c == '&' {
            assert(escape_char(c) + e2 =~= seq!['&'] + seq!['a', 'm', 'p'] + seq![';'] + e2);
            lemma_reference_piece(seq!['a', 'm', 'p'], c, e2);
        } else if c == '<' {
            assert(escape_char(c) + e2 =~= seq!['&'] + seq!['l', 't'] + seq![';'] + e2);
            lemma_reference_piece(seq!['l', 't'], c, e2);
        } else if c == '>' {
            assert(escape_char(c) + e2 =~= seq!['&'] + seq!['g', 't'] + seq![';'] + e2);
            lemma_reference_piece(seq!['g', 't'], c, e2);
        } else if c == '"' {
            assert(escape_char(c) + e2 =~= seq!['&'] + seq!['q', 'u', 'o', 't'] + seq![';'] + e2);
            lemma_reference_piece(seq!['q', 'u', 'o', 't'], c, e2);
        } else if c == '\'' {
            assert(escape_char(c) + e2 =~= seq!['&'] + seq!['a', 'p', 'o', 's'] + seq![';'] + e2);
            lemma_reference_piece(seq!['a', 'p', 'o', 's'], c, e2);
        } else {
            let x = escape(s);
            assert(x =~= seq![c] + e2);
            lemma_unescape_suffix(x, 1);
            assert(x.subrange(1, x.len() as int) =~= e2);
        }
    }
}

/// The characters of `s`, in order.
fn chars_of(s: &str) -> (r: Vec<char>)
    ensures
        r@ == s@,
{
    broadcast use vstd::string::axiom_spec_iter, vstd::string::next_postcondition;

    let mut r: Vec<char> = Vec::new();
    let mut it = s.chars();
    loop
        invariant
            it.obeys_prophetic_iter_laws(),
            it.decrease() is Some,
            r@ + it.remaining() == s@,
        ensures
            r@ == s@,
        decreases it.decrease()->0,
    {
        match it.next() {
            Some(c) => {
                assert(r@.push(c) + it.remaining() =~= s@);
                r.push(c);
            },
            None => {
                assert(r@ + it.remaining() =~= r@);
                break;
            },
        }
    }
    r
}

/// Relies on `String::push`: appends one character.
#[verifier::external_body]
fn push_char(s: &mut String, c: char)
    ensures
        final(s)@ == old(s)@.push(c),
{
    s.push(c)
}

/// Relies on `char::from_u32`: `Some` exactly for the scalar values.
#[verifier::external_body]
fn char_from_u32(n: u32) -> (r: Option<char>)
    ensures
        is_scalar_value(n as nat) ==> r == Some(n as char),
        !is_scalar_value(n as nat) ==> r is None,
{
    char::from_u32(n)
}

fn string_of(v: &Vec<char>, start: usize, end: usize) -> (r: String)
    requires
        start <= end <= v.len(),
    ensures
        r@ == v@.subrange(start as int, end as int),
{
    let mut r = String::new();
    let mut k: usize = start;
    while k < end
        invariant
            start <= k <= end <= v.len(),
            r@ == v@.subrange(start as int, k as int),
        decreases end - k,
    {
        push_char(&mut r, v[k]);
        assert(r@ =~= v@.subrange(start as int, k + 1));
        k = k + 1;
    }
    r
}

fn digit_of(c: char, radix: u32) -> (r: Option<u32>)
    requires
        radix == 10 || radix == 16,
    ensures
        r is Some <==> digit_value(c, radix as nat) is Some,
        r is Some ==> r->0 as nat == digit_value(c, radix as nat)->0 && r->0 < radix,
{
    if '0' <= c && c <= '9' {
        Some(c as u32 - '0' as u32)
    } else if radix == 16 && 'a' <= c && c <= 'f' {
        Some(c as u32 - 'a' as u32 + 10)
    } else if radix == 16 && 'A' <= c && c <= 'F' {
        Some(c as u32 - 'A' as u32 + 10)
    } else {
        None
    }
}

fn code_char_of(v: &Vec<char>, start: usize, end: usize, radix: u32) -> (r: Option<char>)
    requires
        start <= end <= v.len(),
        radix == 10 || radix == 16,
    ensures
        r == code_char(v@.subrange(start as int, end as int), radix as nat),
{
    let ghost d = v@.subrange(start as int, end as int);
    if start == end {
        return None;
    }
    let mut acc: u32 = 0;
    let mut k: usize = start;
    assert(v@.subrange(start as int, start as int) =~= seq![]);
    while k < end
        invariant
            start <= k <= end <= v.len(),
            radix == 10 || radix == 16,
            d == v@.subrange(start as int, end as int),
            acc <= 0x10FFFF,
            acc as nat == digits_value(v@.subrange(start as int, k as int), radix as nat),
            forall|m: int| start <= m < k ==> (#[trigger] digit_value(v@[m], radix as nat)) is Some,
        decreases end - k,
    {
        let ghost p = v@.subrange(start as int, k + 1);
        assert(p.drop_last() =~= v@.subrange(start as int, k as int));
        match digit_of(v[k], radix) {
            None => {
                assert(d[k - start] == v@[k as int]);
                return None;
            },
            Some(x) => {
                assert(acc * radix <= 0x10FFFF * 16) by (nonlinear_arith)
                    requires
                        acc <= 0x10FFFF,
                        radix <= 16,
                ;
                let next = acc * radix + x;
                if next > 0x10FFFF {
                    proof {
                        lemma_digits_grow(d, k + 1 - start, radix as nat);
                        assert(d.subrange(0, k + 1 - start) =~= p);
                    }
                    return None;
                }
                acc = next;
                k = k + 1;
            },
        }
    }
    assert(v@.subrange(start as int, k as int) =~= d);
    assert(all_digits(d, radix as nat)) by {
        assert forall|m: int| 0 <= m < d.len() implies (#[trigger] digit_value(d[m], radix as nat)) is Some by {
            assert(d[m] == v@[start + m]);
        }
    }
    char_from_u32(acc)
}

fn entity_char_of(v: &Vec<char>, start: usize, end: usize) -> (r: Option<char>)
    requires
        start <= end <= v.len(),
    ensures
        r == entity_char(v@.subrange(start as int, end as int)),
{
    let ghost e = v@.subrange(start as int, end as int);
    let n = end - start;
    if n == 4 && v[start] == 'q' && v[start + 1] == 'u' && v[start + 2] == 'o' && v[start + 3] == 't' {
        assert(e =~= seq!['q', 'u', 'o', 't']);
        return Some('"');
    }
    if n == 4 && v[start] == 'a' && v[start + 1] == 'p' && v[start + 2] == 'o' && v[start + 3] == 's' {
        assert(e =~= seq!['a', 'p', 'o', 's']);
        return Some('\'');
    }
    if n == 2 && v[start] == 'l' && v[start + 1] == 't' {
        assert(e =~= seq!['l', 't']);
        return Some('<');
    }
    if n == 2 && v[start] == 'g' && v[start + 1] == 't' {
        assert(e =~= seq!['g', 't']);
        return Some('>');
    }
    if n == 3 && v[start] == 'a' && v[start + 1] == 'm' && v[start + 2] == 'p' {
        assert(e =~= seq!['a', 'm', 'p']);
        return Some('&');
    }
    assert(e != seq!['q', 'u', 'o', 't']);
    assert(e != seq!['a', 'p', 'o', 's']);
    assert(e != seq!['l', 't']);
    assert(e != seq!['g', 't']);
    assert(e != seq!['a', 'm', 'p']);
    if n >= 2 && v[start] == '#' && v[start + 1] == 'x' {
        assert(e.subrange(2, e.len() as int) =~= v@.subrange(start + 2, end as int));
        code_char_of(v, start + 2, end, 16)
    } else if n >= 1 && v[start] == '#' {
        assert(e.subrange(1, e.len() as int) =~= v@.subrange(start + 1, end as int));
        code_char_of(v, start + 1, end, 10)
    } else {
        None
    }
}

/// Decodes the character references of a text run. A run without `&` comes
/// back as the same slice.
pub fn xml_unescape<'a>(raw: &'a str) -> (r: Result<CowStr<'a>, XmlError>)
    ensures
        match unescape(raw@) {
            Ok(u) => r is Ok && r->Ok_0@ == u,
            Err(EscapeFault::Unterminated(s)) => r is Err && r->Err_0 is UnterminatedEntity
                && r->Err_0->entity@ == s,
            Err(EscapeFault::Unrecognized(s)) => r is Err && r->Err_0 is UnrecognizedSymbol
                && r->Err_0->symbol@ == s,
        },
        !raw@.contains('&') ==> r == Ok::<CowStr<'a>, XmlError>(CowStr::Borrowed(raw)),
{
    let v = chars_of(raw);
    let ghost s = raw@;
    let n = v.len();
    let mut k: usize = 0;
    while k < n && v[k] != '&'
        invariant
            k <= n == v.len(),
            v@ == s,
            forall|m: int| 0 <= m < k ==> s[m] != '&',
        decreases n - k,
    {
        k = k + 1;
    }
    if k == n {
        proof {
            lemma_no_reference(s, 0);
            assert(s.subrange(0, s.len() as int) =~= s);
        }
        return Ok(CowStr::Borrowed(raw));
    }
    assert(s.contains('&')) by {
        assert(s[k as int] == '&');
    }
    let mut out = String::new();
    let mut i: usize = 0;
    assert(unescape(s) == prepend(out@, unescape_at(s, 0))) by {
        if let Ok(x) = unescape_at(s, 0) {
            assert(out@ + x =~= x);
        }
    }
    while i < n
        invariant
            i <= n == v.len(),
            v@ == s,
            s == raw@,
            s.contains('&'),
            unescape(s) == prepend(out@, unescape_at(s, i as int)),
        decreases n - i,
    {
        let c = v[i];
        if c != '&' {
            proof {
                lemma_prepend_push(out@, c, unescape_at(s, i + 1));
            }
            push_char(&mut out, c);
            i = i + 1;
        } else {
            let mut j: usize = i + 1;
            while j < n && v[j] != ';'
                invariant
                    i < j <= n == v.len(),
                    v@ == s,
                    forall|m: int| i + 1 <= m < j ==> s[m] != ';',
                    s == raw@,
                    s.contains('&'),
                    s[i as int] == '&',
                    unescape(s) == prepend(out@, unescape_at(s, i as int)),
                decreases n - j,
            {
                j = j + 1;
            }
            proof {
                lemma_semi_from_at(s, i + 1, j as int);
            }
            if j == n {
                assert(unescape_at(s, i as int) == Err::<Seq<char>, EscapeFault>(
                    EscapeFault::Unterminated(s.subrange(i as int, n as int)),
                ));
                let entity = string_of(&v, i, n);
                return Err(XmlError::UnterminatedEntity { entity });
            }
            match entity_char_of(&v, i + 1, j) {
                None => {
                    assert(unescape_at(s, i as int) == Err::<Seq<char>, EscapeFault>(
                        EscapeFault::Unrecognized(s.subrange(i + 1, j as int)),
                    ));
                    let symbol = string_of(&v, i + 1, j);
                    return Err(XmlError::UnrecognizedSymbol { symbol });
                },
                Some(d) => {
                    proof {
                        lemma_prepend_push(out@, d, unescape_at(s, j + 1));
                    }
                    push_char(&mut out, d);
                    i = j + 1;
                },
            }
        }
    }
    assert(unescape_at(s, i as int) == Ok::<Seq<char>, EscapeFault>(seq![]));
    assert(out@ + seq![] =~= out@);
    Ok(CowStr::Owned(out))
}

} // verus!
