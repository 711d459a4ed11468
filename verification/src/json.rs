//! JSON, as much of it as a text-based dylib stub uses.
//!
//! A parsed text is a list of nodes, in which every node stands behind those
//! that it contains.
use crate::util::bytes;
use crate::util::text;
use vstd::prelude::*;
use vstd::string::*;

verus! {

/// Why a text is not JSON.
#[derive(Clone, Copy, Debug, PartialEq, Eq, Structural)]
pub enum JsonError {
    ExpectedColon,
    ExpectedCommaOrBrace,
    ExpectedCommaOrBracket,
    ExpectedValue,
    UnexpectedEnd,
    ExpectedString,
    UnterminatedString,
    BadUnicodeEscape,
    BadEscape,
}

/// What a value is.
#[derive(Clone, Copy, Debug, PartialEq, Eq, Structural)]
pub enum JsonKind {
    Null,
    Bool,
    Num,
    Str,
    Arr,
    Obj,
}

/// A value: its text if it is a string, its items or fields with their
/// names if it has any.
#[derive(Debug)]
pub struct Json {
    pub kind: JsonKind,
    pub text: Vec<u8>,
    pub kids: Vec<(Vec<u8>, usize)>,
}

/// A value, as mathematical values.
#[verifier::ext_equal]
pub struct JsonView {
    pub kind: JsonKind,
    pub text: Seq<u8>,
    pub kids: Seq<(Seq<u8>, int)>,
}

pub open spec fn kid_views(v: Seq<(Vec<u8>, usize)>) -> Seq<(Seq<u8>, int)> {
    v.map_values(|k: (Vec<u8>, usize)| (k.0@, k.1 as int))
}

impl View for Json {
    type V = JsonView;

    open spec fn view(&self) -> JsonView {
        JsonView { kind: self.kind, text: self.text@, kids: kid_views(self.kids@) }
    }
}

pub open spec fn json_views(v: Seq<Json>) -> Seq<JsonView> {
    v.map_values(|j: Json| j@)
}

/// True when every node stands behind those that it contains.
pub open spec fn nested(nodes: Seq<JsonView>) -> bool {
    forall|i: int, k: int|
        0 <= i < nodes.len() && 0 <= k < nodes[i].kids.len() ==> 0
            <= #[trigger] nodes[i].kids[k].1 < i
}

/// Where the white space at `pos` ends.
pub open spec fn ws_end(data: Seq<u8>, pos: int) -> int
    decreases data.len() - pos,
{
    if 0 <= pos < data.len() && (data[pos] == 32 || data[pos] == 9 || data[pos] == 10 || data[pos]
        == 13) {
        ws_end(data, pos + 1)
    } else {
        pos
    }
}

/// Skips white space.
pub fn skip_ws(data: &[u8], pos: usize) -> (r: usize)
    requires
        pos <= data.len(),
    ensures
        r == ws_end(data@, pos as int),
        pos <= r <= data.len(),
{
    let mut i: usize = pos;
    while i < data.len() && (data[i] == 32 || data[i] == 9 || data[i] == 10 || data[i] == 13)
        invariant
            pos <= i <= data.len(),
            ws_end(data@, pos as int) == ws_end(data@, i as int),
        decreases data.len() - i,
    {
        i += 1;
    }
    i
}

/// Behind the byte `c`, if it follows at `pos`.
pub open spec fn eaten(data: Seq<u8>, pos: int, c: u8) -> Option<int> {
    let p = ws_end(data, pos);
    if 0 <= p < data.len() && data[p] == c {
        Some(p + 1)
    } else {
        None
    }
}

/// Skips white space and one byte, if it is there.
pub fn eat(data: &[u8], pos: usize, c: u8) -> (r: Option<usize>)
    requires
        pos <= data.len(),
    ensures
        match r {
            Some(p) => eaten(data@, pos as int, c) == Some(p as int) && pos < p <= data.len(),
            None => eaten(data@, pos as int, c) is None,
        },
{
    let p: usize = skip_ws(data, pos);
    if p < data.len() && data[p] == c {
        Some(p + 1)
    } else {
        None
    }
}

/// The UTF-8 encoding of a code point below 0x10000.
pub open spec fn utf8_of(c: int) -> Seq<u8> {
    if c < 0x80 {
        seq![c as u8]
    } else if c < 0x800 {
        seq![(0xc0 + c / 64) as u8, (0x80 + c % 64) as u8]
    } else {
        seq![(0xe0 + c / 4096) as u8, (0x80 + c / 64 % 64) as u8, (0x80 + c % 64) as u8]
    }
}

/// The byte that an escape stands for.
pub open spec fn escape_byte(c: u8) -> u8 {
    if c == 110 {
        10
    } else if c == 116 {
        9
    } else if c == 114 {
        13
    } else if c == 98 {
        8
    } else if c == 102 {
        12
    } else {
        c
    }
}

/// The end of the digits of the escape of a code point.
pub open spec fn hex_end(raw: Seq<u8>, i: int) -> int {
    if i + 4 <= raw.len() {
        i + 4
    } else {
        raw.len() as int
    }
}

/// The text that a string stands for, from `i` on, behind `acc`.
pub open spec fn unescaped(raw: Seq<u8>, i: int, acc: Seq<u8>) -> Result<Seq<u8>, JsonError>
    decreases raw.len() - i,
{
    if i < 0 || i >= raw.len() {
        Ok(acc)
    } else if raw[i] != 92 {
        unescaped(raw, i + 1, acc.push(raw[i]))
    } else if i + 1 >= raw.len() {
        Err(JsonError::BadEscape)
    } else if raw[i + 1] == 117 {
        let end = hex_end(raw, i + 2);
        match text::parsed(raw.subrange(i + 2, end), 16, u32::MAX as int) {
            None => Err(JsonError::BadUnicodeEscape),
            Some(c) => if c >= 0x1_0000 || 0xd800 <= c < 0xe000 {
                Err(JsonError::BadUnicodeEscape)
            } else {
                unescaped(raw, end, acc + utf8_of(c))
            },
        }
    } else {
        unescaped(raw, i + 2, acc.push(escape_byte(raw[i + 1])))
    }
}

fn push_code(out: &mut Vec<u8>, c: u64)
    requires
        c < 0x1_0000,
    ensures
        final(out)@ == old(out)@ + utf8_of(c as int),
{
    let ghost before = out@;
    if c < 0x80 {
        out.push(c as u8);
    } else if c < 0x800 {
        out.push((0xc0 + c / 64) as u8);
        out.push((0x80 + c % 64) as u8);
    } else {
        out.push((0xe0 + c / 4096) as u8);
        out.push((0x80 + c / 64 % 64) as u8);
        out.push((0x80 + c % 64) as u8);
    }
    assert(out@ =~= before + utf8_of(c as int));
}

/// Resolves the escapes of a string.
fn unescape(raw: &[u8]) -> (r: Result<Vec<u8>, JsonError>)
    ensures
        match r {
            Ok(v) => unescaped(raw@, 0, Seq::empty()) == Ok::<Seq<u8>, JsonError>(v@),
            Err(e) => unescaped(raw@, 0, Seq::empty()) == Err::<Seq<u8>, JsonError>(e),
        },
{
    let mut out: Vec<u8> = Vec::new();
    let mut i: usize = 0;
    assert(out@ =~= Seq::<u8>::empty());
    while i < raw.len()
        invariant
            i <= raw.len(),
            unescaped(raw@, 0, Seq::empty()) == unescaped(raw@, i as int, out@),
        decreases raw.len() - i,
    {
        if raw[i] != 92 {
            out.push(raw[i]);
            i += 1;
        } else if raw.len() - i <= 1 {
            return Err(JsonError::BadEscape);
        } else {
            let c: u8 = raw[i + 1];
            if c == 117 {
                let start: usize = i + 2;
                let end: usize = if raw.len() - start >= 4 {
                    start + 4
                } else {
                    raw.len()
                };
                let digits = vstd::slice::slice_subrange(raw, start, end);
                let code: u64 = match text::parse_number(digits, 16, 0xffff_ffff) {
                    Some(n) => n,
                    None => return Err(JsonError::BadUnicodeEscape),
                };
                if code >= 0x1_0000 || (0xd800 <= code && code < 0xe000) {
                    return Err(JsonError::BadUnicodeEscape);
                }
                push_code(&mut out, code);
                i = end;
            } else {
                let b: u8 = if c == 110 {
                    10
                } else if c == 116 {
                    9
                } else if c == 114 {
                    13
                } else if c == 98 {
                    8
                } else if c == 102 {
                    12
                } else {
                    c
                };
                out.push(b);
                i += 2;
            }
        }
    }
    Ok(out)
}

/// Where the string at `i` ends: at its closing quote, or not before the end
/// of the text.
pub open spec fn string_end(data: Seq<u8>, i: int) -> int
    decreases data.len() - i,
{
    if i < 0 || i >= data.len() || data[i] == 34 {
        i
    } else if data[i] == 92 {
        if i + 1 >= data.len() {
            data.len() as int
        } else {
            string_end(data, i + 2)
        }
    } else {
        string_end(data, i + 1)
    }
}

/// The string at `pos` and the position behind it.
pub open spec fn string_at(data: Seq<u8>, pos: int) -> Result<(Seq<u8>, int), JsonError> {
    if pos < 0 || pos >= data.len() || data[pos] != 34 {
        Err(JsonError::ExpectedString)
    } else {
        let end = string_end(data, pos + 1);
        if end >= data.len() {
            Err(JsonError::UnterminatedString)
        } else {
            match unescaped(data.subrange(pos + 1, end), 0, Seq::empty()) {
                Ok(s) => Ok((s, end + 1)),
                Err(e) => Err(e),
            }
        }
    }
}

/// Reads a string.
pub fn parse_string(data: &[u8], pos: usize) -> (r: Result<(Vec<u8>, usize), JsonError>)
    requires
        pos <= data.len(),
    ensures
        match r {
            Ok((s, next)) => string_at(data@, pos as int) == Ok::<(Seq<u8>, int), JsonError>(
                (s@, next as int),
            ) && pos < next <= data.len(),
            Err(e) => string_at(data@, pos as int) == Err::<(Seq<u8>, int), JsonError>(e),
        },
{
    if pos >= data.len() || data[pos] != 34 {
        return Err(JsonError::ExpectedString);
    }
    let mut i: usize = pos + 1;
    while i < data.len() && data[i] != 34
        invariant
            pos < i,
            pos < data.len(),
            data[pos as int] == 34,
            string_end(data@, pos + 1) == string_end(data@, i as int),
        decreases data.len() - i,
    {
        if data[i] == 92 {
            if data.len() - i <= 1 {
                return Err(JsonError::UnterminatedString);
            }
            i += 2;
        } else {
            i += 1;
        }
    }
    if i >= data.len() {
        return Err(JsonError::UnterminatedString);
    }
    let raw = vstd::slice::slice_subrange(data, pos + 1, i);
    match unescape(raw) {
        Ok(s) => Ok((s, i + 1)),
        Err(e) => Err(e),
    }
}

/// True for the bytes a number is made of.
pub open spec fn number_byte(c: u8) -> bool {
    48 <= c <= 57 || c == 45 || c == 43 || c == 46 || c == 101 || c == 69
}

/// Where the number at `i` ends.
pub open spec fn number_end(data: Seq<u8>, i: int) -> int
    decreases data.len() - i,
{
    if 0 <= i < data.len() && number_byte(data[i]) {
        number_end(data, i + 1)
    } else {
        i
    }
}

/// Where the digits at `i` end.
pub open spec fn digits_end(s: Seq<u8>, i: int) -> int
    decreases s.len() - i,
{
    if 0 <= i < s.len() && 48 <= s[i] <= 57 {
        digits_end(s, i + 1)
    } else {
        i
    }
}

/// Behind the sign at `i`, if there is one.
pub open spec fn sign_end(s: Seq<u8>, i: int) -> int {
    if 0 <= i < s.len() && (s[i] == 45 || s[i] == 43) {
        i + 1
    } else {
        i
    }
}

/// True for a decimal number: digits with an optional sign, fraction and
/// exponent.
pub open spec fn is_decimal(s: Seq<u8>) -> bool {
    let i = sign_end(s, 0);
    let a = digits_end(s, i);
    let dot = a < s.len() && s[a] == 46;
    let b = if dot {
        digits_end(s, a + 1)
    } else {
        a
    };
    let has_exp = b < s.len() && (s[b] == 101 || s[b] == 69);
    let c = sign_end(s, b + 1);
    let d = digits_end(s, c);
    &&& a > i || (dot && b > a + 1)
    &&& if has_exp {
        d > c && d == s.len()
    } else {
        b == s.len()
    }
}

fn skip_digits(s: &[u8], from: usize) -> (r: usize)
    requires
        from <= s.len(),
    ensures
        r == digits_end(s@, from as int),
        from <= r <= s.len(),
{
    let mut i: usize = from;
    while i < s.len() && 48 <= s[i] && s[i] <= 57
        invariant
            from <= i <= s.len(),
            digits_end(s@, from as int) == digits_end(s@, i as int),
        decreases s.len() - i,
    {
        i += 1;
    }
    i
}

fn skip_sign(s: &[u8], i: usize) -> (r: usize)
    requires
        i <= s.len(),
    ensures
        r == sign_end(s@, i as int),
        i <= r <= s.len(),
{
    if i < s.len() && (s[i] == 45 || s[i] == 43) {
        i + 1
    } else {
        i
    }
}

/// Tests for a decimal number.
pub fn check_decimal(s: &[u8]) -> (r: bool)
    ensures
        r == is_decimal(s@),
{
    let i: usize = skip_sign(s, 0);
    let a: usize = skip_digits(s, i);
    let dot: bool = a < s.len() && s[a] == 46;
    let b: usize = if dot {
        skip_digits(s, a + 1)
    } else {
        a
    };
    if !(a > i || (dot && b > a + 1)) {
        return false;
    }
    if b < s.len() && (s[b] == 101 || s[b] == 69) {
        let c: usize = skip_sign(s, b + 1);
        let d: usize = skip_digits(s, c);
        d > c && d == s.len()
    } else {
        b == s.len()
    }
}

/// A value without contents.
pub open spec fn leaf(kind: JsonKind, text: Seq<u8>) -> JsonView {
    JsonView { kind, text, kids: Seq::empty() }
}

/// The value at `pos` that contains nothing: what it is, and the position
/// behind it.
pub open spec fn scalar_at(data: Seq<u8>, p: int) -> Result<(JsonView, int), JsonError> {
    if data[p] == 34 {
        match string_at(data, p) {
            Ok((s, next)) => Ok((leaf(JsonKind::Str, s), next)),
            Err(e) => Err(e),
        }
    } else if bytes::occurs_at(data, "true".spec_bytes(), p) {
        Ok((leaf(JsonKind::Bool, Seq::empty()), p + 4))
    } else if bytes::occurs_at(data, "false".spec_bytes(), p) {
        Ok((leaf(JsonKind::Bool, Seq::empty()), p + 5))
    } else if bytes::occurs_at(data, "null".spec_bytes(), p) {
        Ok((leaf(JsonKind::Null, Seq::empty()), p + 4))
    } else {
        let end = number_end(data, p);
        if is_decimal(data.subrange(p, end)) {
            Ok((leaf(JsonKind::Num, Seq::empty()), end))
        } else {
            Err(JsonError::ExpectedValue)
        }
    }
}

fn parse_scalar(data: &[u8], p: usize) -> (r: Result<(Json, usize), JsonError>)
    requires
        p < data.len(),
    ensures
        match r {
            Ok((j, next)) => scalar_at(data@, p as int) == Ok::<(JsonView, int), JsonError>(
                (j@, next as int),
            ) && p < next <= data.len() && j.kids.len() == 0,
            Err(e) => scalar_at(data@, p as int) == Err::<(JsonView, int), JsonError>(e),
        },
{
    proof {
        reveal_strlit("true");
        reveal_strlit("false");
        reveal_strlit("null");
        is_ascii_spec_bytes("true");
        is_ascii_spec_bytes("false");
        is_ascii_spec_bytes("null");
    }
    let none: Vec<(Vec<u8>, usize)> = Vec::new();
    assert(kid_views(none@) =~= Seq::<(Seq<u8>, int)>::empty());
    if data[p] == 34 {
        return match parse_string(data, p) {
            Ok((s, next)) => Ok((Json { kind: JsonKind::Str, text: s, kids: none }, next)),
            Err(e) => Err(e),
        };
    }
    let empty: Vec<u8> = Vec::new();
    assert(empty@ =~= Seq::<u8>::empty());
    if bytes::is_at(data, "true".as_bytes(), p) {
        return Ok((Json { kind: JsonKind::Bool, text: empty, kids: none }, p + 4));
    }
    if bytes::is_at(data, "false".as_bytes(), p) {
        return Ok((Json { kind: JsonKind::Bool, text: empty, kids: none }, p + 5));
    }
    if bytes::is_at(data, "null".as_bytes(), p) {
        return Ok((Json { kind: JsonKind::Null, text: empty, kids: none }, p + 4));
    }
    let mut i: usize = p;
    while i < data.len() && ((48 <= data[i] && data[i] <= 57) || data[i] == 45 || data[i] == 43
        || data[i] == 46 || data[i] == 101 || data[i] == 69)
        invariant
            p <= i <= data.len(),
            number_end(data@, p as int) == number_end(data@, i as int),
        decreases data.len() - i,
    {
        i += 1;
    }
    let s = vstd::slice::slice_subrange(data, p, i);
    if check_decimal(s) {
        Ok((Json { kind: JsonKind::Num, text: empty, kids: none }, i))
    } else {
        Err(JsonError::ExpectedValue)
    }
}

/// A value with contents behind the nodes that it contains.
pub open spec fn grown(nodes: Seq<JsonView>, kind: JsonKind, kids: Seq<(Seq<u8>, int)>) -> Seq<
    JsonView,
> {
    nodes.push(JsonView { kind, text: Seq::empty(), kids })
}

/// The value at `pos`: its node's number, the position behind it, and the
/// nodes with those of the value.
pub open spec fn value_at(data: Seq<u8>, pos: int, nodes: Seq<JsonView>) -> Result<
    (int, int, Seq<JsonView>),
    JsonError,
>
    decreases data.len() - pos, 0int,
{
    let p = ws_end(data, pos);
    if p < pos || p >= data.len() {
        Err(JsonError::UnexpectedEnd)
    } else if data[p] == 123 {
        match eaten(data, p + 1, 125) {
            Some(q) => Ok((nodes.len() as int, q, grown(nodes, JsonKind::Obj, Seq::empty()))),
            None => match fields_from(data, p + 1, nodes, Seq::empty()) {
                Err(e) => Err(e),
                Ok((kids, q, after)) => Ok(
                    (after.len() as int, q, grown(after, JsonKind::Obj, kids)),
                ),
            },
        }
    } else if data[p] == 91 {
        match eaten(data, p + 1, 93) {
            Some(q) => Ok((nodes.len() as int, q, grown(nodes, JsonKind::Arr, Seq::empty()))),
            None => match items_from(data, p + 1, nodes, Seq::empty()) {
                Err(e) => Err(e),
                Ok((kids, q, after)) => Ok(
                    (after.len() as int, q, grown(after, JsonKind::Arr, kids)),
                ),
            },
        }
    } else {
        match scalar_at(data, p) {
            Err(e) => Err(e),
            Ok((j, q)) => Ok((nodes.len() as int, q, nodes.push(j))),
        }
    }
}

/// The fields of an object from `pos` on, behind those in `acc`.
pub open spec fn fields_from(
    data: Seq<u8>,
    pos: int,
    nodes: Seq<JsonView>,
    acc: Seq<(Seq<u8>, int)>,
) -> Result<(Seq<(Seq<u8>, int)>, int, Seq<JsonView>), JsonError>
    decreases data.len() - pos, 1int,
{
    match string_at(data, ws_end(data, pos)) {
        Err(e) => Err(e),
        Ok((key, p)) => match eaten(data, p, 58) {
            None => Err(JsonError::ExpectedColon),
            Some(q) => if q <= pos || q > data.len() {
                Err(JsonError::ExpectedColon)
            } else {
                match value_at(data, q, nodes) {
                    Err(e) => Err(e),
                    Ok((idx, t, after)) => match eaten(data, t, 44) {
                        Some(u) => if u <= pos || u > data.len() {
                            Err(JsonError::ExpectedCommaOrBrace)
                        } else {
                            fields_from(data, u, after, acc.push((key, idx)))
                        },
                        None => match eaten(data, t, 125) {
                            Some(u) => Ok((acc.push((key, idx)), u, after)),
                            None => Err(JsonError::ExpectedCommaOrBrace),
                        },
                    },
                }
            },
        },
    }
}

/// The items of an array from `pos` on, behind those in `acc`.
pub open spec fn items_from(
    data: Seq<u8>,
    pos: int,
    nodes: Seq<JsonView>,
    acc: Seq<(Seq<u8>, int)>,
) -> Result<(Seq<(Seq<u8>, int)>, int, Seq<JsonView>), JsonError>
    decreases data.len() - pos, 1int,
{
    match value_at(data, pos, nodes) {
        Err(e) => Err(e),
        Ok((idx, t, after)) => match eaten(data, t, 44) {
            Some(u) => if u <= pos || u > data.len() {
                Err(JsonError::ExpectedCommaOrBracket)
            } else {
                items_from(data, u, after, acc.push((Seq::empty(), idx)))
            },
            None => match eaten(data, t, 93) {
                Some(u) => Ok((acc.push((Seq::empty(), idx)), u, after)),
                None => Err(JsonError::ExpectedCommaOrBracket),
            },
        },
    }
}

/// True when the numbers are those of nodes.
pub open spec fn kids_in(kids: Seq<(Seq<u8>, int)>, n: int) -> bool {
    forall|k: int| 0 <= k < kids.len() ==> 0 <= (#[trigger] kids[k]).1 < n
}

fn push_kid(kids: &mut Vec<(Vec<u8>, usize)>, key: Vec<u8>, idx: usize)
    ensures
        kid_views(final(kids)@) == kid_views(old(kids)@).push((key@, idx as int)),
{
    let ghost before = kid_views(kids@);
    let ghost kid = (key@, idx as int);
    kids.push((key, idx));
    assert(kid_views(kids@) =~= before.push(kid));
}

fn push_node(nodes: &mut Vec<Json>, j: Json) -> (r: usize)
    requires
        nested(json_views(old(nodes)@)),
        kids_in(j@.kids, old(nodes).len() as int),
    ensures
        r == old(nodes).len(),
        json_views(final(nodes)@) == json_views(old(nodes)@).push(j@),
        nested(json_views(final(nodes)@)),
        final(nodes).len() == old(nodes).len() + 1,
{
    let ghost before = json_views(nodes@);
    let ghost jv = j@;
    let r: usize = nodes.len();
    nodes.push(j);
    proof {
        let after = json_views(nodes@);
        assert(after =~= before.push(jv));
        assert forall|i: int, k: int| 0 <= i < after.len() && 0 <= k < after[i].kids.len() implies 0
            <= #[trigger] after[i].kids[k].1 < i by {
            if i < before.len() {
                assert(after[i] == before[i]);
                assert(0 <= before[i].kids[k].1 < i);
            }
        }
    }
    r
}

/// Reads a value, adding its nodes.
pub fn parse_value(data: &[u8], pos: usize, nodes: &mut Vec<Json>) -> (r: Result<
    (usize, usize),
    JsonError,
>)
    requires
        pos <= data.len(),
        nested(json_views(old(nodes)@)),
    ensures
        match r {
            Ok((idx, next)) => value_at(data@, pos as int, json_views(old(nodes)@)) == Ok::<
                (int, int, Seq<JsonView>),
                JsonError,
            >((idx as int, next as int, json_views(final(nodes)@))) && pos < next <= data.len()
                && nested(json_views(final(nodes)@)) && idx < final(nodes).len() && old(nodes).len()
                <= final(nodes).len(),
            Err(e) => value_at(data@, pos as int, json_views(old(nodes)@)) == Err::<
                (int, int, Seq<JsonView>),
                JsonError,
            >(e),
        },
    decreases data.len() - pos, 0int,
{
    let p: usize = skip_ws(data, pos);
    if p >= data.len() {
        return Err(JsonError::UnexpectedEnd);
    }
    let empty: Vec<u8> = Vec::new();
    assert(empty@ =~= Seq::<u8>::empty());
    if data[p] == 123 {
        let none: Vec<(Vec<u8>, usize)> = Vec::new();
        assert(kid_views(none@) =~= Seq::<(Seq<u8>, int)>::empty());
        match eat(data, p + 1, 125) {
            Some(q) => {
                let idx: usize = push_node(
                    nodes,
                    Json { kind: JsonKind::Obj, text: empty, kids: none },
                );
                Ok((idx, q))
            },
            None => match parse_fields(data, p + 1, nodes) {
                Err(e) => Err(e),
                Ok((kids, q)) => {
                    let idx: usize = push_node(
                        nodes,
                        Json { kind: JsonKind::Obj, text: empty, kids },
                    );
                    Ok((idx, q))
                },
            },
        }
    } else if data[p] == 91 {
        let none: Vec<(Vec<u8>, usize)> = Vec::new();
        assert(kid_views(none@) =~= Seq::<(Seq<u8>, int)>::empty());
        match eat(data, p + 1, 93) {
            Some(q) => {
                let idx: usize = push_node(
                    nodes,
                    Json { kind: JsonKind::Arr, text: empty, kids: none },
                );
                Ok((idx, q))
            },
            None => match parse_items(data, p + 1, nodes) {
                Err(e) => Err(e),
                Ok((kids, q)) => {
                    let idx: usize = push_node(
                        nodes,
                        Json { kind: JsonKind::Arr, text: empty, kids },
                    );
                    Ok((idx, q))
                },
            },
        }
    } else {
        match parse_scalar(data, p) {
            Err(e) => Err(e),
            Ok((j, q)) => {
                let idx: usize = push_node(nodes, j);
                Ok((idx, q))
            },
        }
    }
}

/// Reads the fields of an object.
fn parse_fields(data: &[u8], pos: usize, nodes: &mut Vec<Json>) -> (r: Result<
    (Vec<(Vec<u8>, usize)>, usize),
    JsonError,
>)
    requires
        pos <= data.len(),
        nested(json_views(old(nodes)@)),
    ensures
        match r {
            Ok((kids, next)) => fields_from(
                data@,
                pos as int,
                json_views(old(nodes)@),
                Seq::empty(),
            ) == Ok::<(Seq<(Seq<u8>, int)>, int, Seq<JsonView>), JsonError>(
                (kid_views(kids@), next as int, json_views(final(nodes)@)),
            ) && pos < next <= data.len() && nested(json_views(final(nodes)@)) && kids_in(
                kid_views(kids@),
                final(nodes).len() as int,
            ) && old(nodes).len() <= final(nodes).len(),
            Err(e) => fields_from(data@, pos as int, json_views(old(nodes)@), Seq::empty())
                == Err::<(Seq<(Seq<u8>, int)>, int, Seq<JsonView>), JsonError>(e),
        },
    decreases data.len() - pos, 1int,
{
    let mut kids: Vec<(Vec<u8>, usize)> = Vec::new();
    let mut i: usize = pos;
    assert(kid_views(kids@) =~= Seq::<(Seq<u8>, int)>::empty());
    loop
        invariant
            pos <= i <= data.len(),
            nested(json_views(nodes@)),
            kids_in(kid_views(kids@), nodes.len() as int),
            old(nodes).len() <= nodes.len(),
            fields_from(data@, pos as int, json_views(old(nodes)@), Seq::empty())
                == fields_from(data@, i as int, json_views(nodes@), kid_views(kids@)),
        decreases data.len() - i,
    {
        let s: usize = skip_ws(data, i);
        let (key, p) = match parse_string(data, s) {
            Ok(t) => t,
            Err(e) => return Err(e),
        };
        let q: usize = match eat(data, p, 58) {
            Some(q) => q,
            None => return Err(JsonError::ExpectedColon),
        };
        let (idx, t) = match parse_value(data, q, nodes) {
            Ok(v) => v,
            Err(e) => return Err(e),
        };
        push_kid(&mut kids, key, idx);
        match eat(data, t, 44) {
            Some(u) => {
                i = u;
            },
            None => match eat(data, t, 125) {
                Some(u) => return Ok((kids, u)),
                None => return Err(JsonError::ExpectedCommaOrBrace),
            },
        }
    }
}

/// Reads the items of an array.
fn parse_items(data: &[u8], pos: usize, nodes: &mut Vec<Json>) -> (r: Result<
    (Vec<(Vec<u8>, usize)>, usize),
    JsonError,
>)
    requires
        pos <= data.len(),
        nested(json_views(old(nodes)@)),
    ensures
        match r {
            Ok((kids, next)) => items_from(
                data@,
                pos as int,
                json_views(old(nodes)@),
                Seq::empty(),
            ) == Ok::<(Seq<(Seq<u8>, int)>, int, Seq<JsonView>), JsonError>(
                (kid_views(kids@), next as int, json_views(final(nodes)@)),
            ) && pos < next <= data.len() && nested(json_views(final(nodes)@)) && kids_in(
                kid_views(kids@),
                final(nodes).len() as int,
            ) && old(nodes).len() <= final(nodes).len(),
            Err(e) => items_from(data@, pos as int, json_views(old(nodes)@), Seq::empty())
                == Err::<(Seq<(Seq<u8>, int)>, int, Seq<JsonView>), JsonError>(e),
        },
    decreases data.len() - pos, 1int,
{
    let mut kids: Vec<(Vec<u8>, usize)> = Vec::new();
    let mut i: usize = pos;
    assert(kid_views(kids@) =~= Seq::<(Seq<u8>, int)>::empty());
    loop
        invariant
            pos <= i <= data.len(),
            nested(json_views(nodes@)),
            kids_in(kid_views(kids@), nodes.len() as int),
            old(nodes).len() <= nodes.len(),
            items_from(data@, pos as int, json_views(old(nodes)@), Seq::empty()) == items_from(
                data@,
                i as int,
                json_views(nodes@),
                kid_views(kids@),
            ),
        decreases data.len() - i,
    {
        let (idx, t) = match parse_value(data, i, nodes) {
            Ok(v) => v,
            Err(e) => return Err(e),
        };
        let key: Vec<u8> = Vec::new();
        assert(key@ =~= Seq::<u8>::empty());
        push_kid(&mut kids, key, idx);
        match eat(data, t, 44) {
            Some(u) => {
                i = u;
            },
            None => match eat(data, t, 93) {
                Some(u) => return Ok((kids, u)),
                None => return Err(JsonError::ExpectedCommaOrBracket),
            },
        }
    }
}

/// The first field with a name, from the `k`th on.
pub open spec fn field_from(kids: Seq<(Seq<u8>, int)>, key: Seq<u8>, k: int) -> Option<int>
    decreases kids.len() - k,
{
    if k < 0 || k >= kids.len() {
        None
    } else if kids[k].0 == key {
        Some(kids[k].1)
    } else {
        field_from(kids, key, k + 1)
    }
}

/// The field of an object with a name.
pub open spec fn field_of(nodes: Seq<JsonView>, i: int, key: Seq<u8>) -> Option<int> {
    if nodes[i].kind == JsonKind::Obj {
        field_from(nodes[i].kids, key, 0)
    } else {
        None
    }
}

/// The items of an array; nothing if the value is none.
pub open spec fn items_of(nodes: Seq<JsonView>, i: int) -> Seq<(Seq<u8>, int)> {
    if nodes[i].kind == JsonKind::Arr {
        nodes[i].kids
    } else {
        Seq::empty()
    }
}

/// The items of an array-valued field.
pub open spec fn field_items(nodes: Seq<JsonView>, i: int, key: Seq<u8>) -> Seq<
    (Seq<u8>, int),
> {
    match field_of(nodes, i, key) {
        Some(a) => items_of(nodes, a),
        None => Seq::empty(),
    }
}

/// The text of a string.
pub open spec fn text_of(nodes: Seq<JsonView>, i: int) -> Option<Seq<u8>> {
    if nodes[i].kind == JsonKind::Str {
        Some(nodes[i].text)
    } else {
        None
    }
}

/// The strings among the first `n` items.
pub open spec fn texts_of(nodes: Seq<JsonView>, items: Seq<(Seq<u8>, int)>, n: int) -> Seq<Seq<u8>>
    decreases n,
{
    if n <= 0 {
        Seq::empty()
    } else {
        let before = texts_of(nodes, items, n - 1);
        match text_of(nodes, items[n - 1].1) {
            Some(s) => before.push(s),
            None => before,
        }
    }
}

/// The strings of an array-valued field.
pub open spec fn field_texts(nodes: Seq<JsonView>, i: int, key: Seq<u8>) -> Seq<Seq<u8>> {
    let items = field_items(nodes, i, key);
    texts_of(nodes, items, items.len() as int)
}

/// Finds the field of an object with a name.
pub fn get(nodes: &Vec<Json>, i: usize, key: &str) -> (r: Option<usize>)
    requires
        i < nodes.len(),
        nested(json_views(nodes@)),
    ensures
        match r {
            Some(k) => field_of(json_views(nodes@), i as int, key.spec_bytes()) == Some(k as int)
                && k < nodes.len(),
            None => field_of(json_views(nodes@), i as int, key.spec_bytes()) is None,
        },
{
    let ghost nv = json_views(nodes@);
    assert(nv[i as int] == nodes[i as int]@);
    if nodes[i].kind != JsonKind::Obj {
        return None;
    }
    let mut k: usize = 0;
    while k < nodes[i].kids.len()
        invariant
            i < nodes.len(),
            k <= nodes[i as int].kids.len(),
            nv == json_views(nodes@),
            nv[i as int] == nodes[i as int]@,
            nested(nv),
            nodes[i as int].kind == JsonKind::Obj,
            field_from(nv[i as int].kids, key.spec_bytes(), 0) == field_from(
                nv[i as int].kids,
                key.spec_bytes(),
                k as int,
            ),
        decreases nodes[i as int].kids.len() - k,
    {
        assert(nv[i as int].kids[k as int] == (
            nodes[i as int].kids[k as int].0@,
            nodes[i as int].kids[k as int].1 as int,
        ));
        assert(0 <= nv[i as int].kids[k as int].1 < i);
        if bytes::same(nodes[i].kids[k].0.as_slice(), key.as_bytes()) {
            return Some(nodes[i].kids[k].1);
        }
        k += 1;
    }
    None
}

/// Lists the items of an array-valued field.
pub fn list_items(nodes: &Vec<Json>, i: usize, key: &str) -> (r: Vec<usize>)
    requires
        i < nodes.len(),
        nested(json_views(nodes@)),
    ensures
        r.len() == field_items(json_views(nodes@), i as int, key.spec_bytes()).len(),
        forall|k: int|
            0 <= k < r.len() ==> #[trigger] r[k] == field_items(
                json_views(nodes@),
                i as int,
                key.spec_bytes(),
            )[k].1 && r[k] < nodes.len(),
{
    let ghost nv = json_views(nodes@);
    let mut out: Vec<usize> = Vec::new();
    let a: usize = match get(nodes, i, key) {
        Some(a) => a,
        None => return out,
    };
    assert(nv[a as int] == nodes[a as int]@);
    if nodes[a].kind != JsonKind::Arr {
        return out;
    }
    let mut k: usize = 0;
    while k < nodes[a].kids.len()
        invariant
            a < nodes.len(),
            k <= nodes[a as int].kids.len(),
            nv == json_views(nodes@),
            nv[a as int] == nodes[a as int]@,
            nested(nv),
            out.len() == k,
            forall|j: int|
                0 <= j < k ==> #[trigger] out[j] == nv[a as int].kids[j].1 && out[j]
                    < nodes.len(),
        decreases nodes[a as int].kids.len() - k,
    {
        assert(0 <= nv[a as int].kids[k as int].1 < a);
        out.push(nodes[a].kids[k].1);
        k += 1;
    }
    out
}

/// Reads the text of a string.
pub fn str_of(nodes: &Vec<Json>, i: usize) -> (r: Option<Vec<u8>>)
    requires
        i < nodes.len(),
    ensures
        match r {
            Some(s) => text_of(json_views(nodes@), i as int) == Some(s@),
            None => text_of(json_views(nodes@), i as int) is None,
        },
{
    assert(json_views(nodes@)[i as int] == nodes[i as int]@);
    if nodes[i].kind == JsonKind::Str {
        Some(bytes::to_vec(nodes[i].text.as_slice()))
    } else {
        None
    }
}

/// Lists the strings of an array-valued field.
pub fn strs(nodes: &Vec<Json>, i: usize, key: &str) -> (r: Vec<Vec<u8>>)
    requires
        i < nodes.len(),
        nested(json_views(nodes@)),
    ensures
        bytes::views(r@) == field_texts(json_views(nodes@), i as int, key.spec_bytes()),
{
    let ghost nv = json_views(nodes@);
    let items: Vec<usize> = list_items(nodes, i, key);
    let ghost iv = field_items(nv, i as int, key.spec_bytes());
    let mut out: Vec<Vec<u8>> = Vec::new();
    let mut k: usize = 0;
    assert(bytes::views(out@) =~= Seq::<Seq<u8>>::empty());
    while k < items.len()
        invariant
            k <= items.len(),
            nv == json_views(nodes@),
            items.len() == iv.len(),
            forall|j: int|
                0 <= j < items.len() ==> #[trigger] items[j] == iv[j].1 && items[j]
                    < nodes.len(),
            bytes::views(out@) == texts_of(nv, iv, k as int),
        decreases items.len() - k,
    {
        assert(items[k as int] == iv[k as int].1);
        match str_of(nodes, items[k]) {
            Some(s) => text::push_name(&mut out, s),
            None => {},
        }
        k += 1;
    }
    out
}

} // verus!
