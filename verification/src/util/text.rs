//! Text helpers: white space, lines, words and numbers in UTF-8 bytes.
use crate::util::bytes;
use vstd::prelude::*;

verus! {

/// The length of the white space character at the start of `s`, or 0.
pub open spec fn ws_head(s: Seq<u8>) -> int {
    if s.len() >= 1 && (9 <= s[0] <= 13 || s[0] == 32) {
        1
    } else if s.len() >= 2 && s[0] == 0xc2 && (s[1] == 0x85 || s[1] == 0xa0) {
        2
    } else if s.len() >= 3 && is_ws3(s[0], s[1], s[2]) {
        3
    } else {
        0
    }
}

/// The length of the white space character at the end of `s`, or 0.
pub open spec fn ws_tail(s: Seq<u8>) -> int {
    let n = s.len() as int;
    if n >= 1 && (9 <= s[n - 1] <= 13 || s[n - 1] == 32) {
        1
    } else if n >= 2 && s[n - 2] == 0xc2 && (s[n - 1] == 0x85 || s[n - 1] == 0xa0) {
        2
    } else if n >= 3 && is_ws3(s[n - 3], s[n - 2], s[n - 1]) {
        3
    } else {
        0
    }
}

/// True for the white space characters of three bytes.
pub open spec fn is_ws3(a: u8, b: u8, c: u8) -> bool {
    ||| a == 0xe1 && b == 0x9a && c == 0x80
    ||| a == 0xe2 && b == 0x80 && (0x80 <= c <= 0x8a || c == 0xa8 || c == 0xa9 || c == 0xaf)
    ||| a == 0xe2 && b == 0x81 && c == 0x9f
    ||| a == 0xe3 && b == 0x80 && c == 0x80
}

/// `s` without leading white space.
pub open spec fn trim_start(s: Seq<u8>) -> Seq<u8>
    decreases s.len(),
{
    if ws_head(s) > 0 {
        trim_start(s.skip(ws_head(s)))
    } else {
        s
    }
}

/// `s` without trailing white space.
pub open spec fn trim_end(s: Seq<u8>) -> Seq<u8>
    decreases s.len(),
{
    if ws_tail(s) > 0 {
        trim_end(s.take(s.len() - ws_tail(s)))
    } else {
        s
    }
}

/// `s` without white space around it.
pub open spec fn trim(s: Seq<u8>) -> Seq<u8> {
    trim_end(trim_start(s))
}

fn wide_space(a: u8, b: u8, c: u8) -> (r: bool)
    ensures
        r == is_ws3(a, b, c),
{
    (a == 0xe1 && b == 0x9a && c == 0x80) || (a == 0xe2 && b == 0x80 && ((0x80 <= c && c <= 0x8a)
        || c == 0xa8 || c == 0xa9 || c == 0xaf)) || (a == 0xe2 && b == 0x81 && c == 0x9f) || (a
        == 0xe3 && b == 0x80 && c == 0x80)
}

/// The length of the white space character at `pos`, or 0.
pub fn space_at(s: &[u8], pos: usize) -> (r: usize)
    requires
        pos <= s.len(),
    ensures
        r == ws_head(s@.skip(pos as int)),
        pos + r <= s.len(),
{
    let ghost t = s@.skip(pos as int);
    let left: usize = s.len() - pos;
    if left >= 1 && ((9 <= s[pos] && s[pos] <= 13) || s[pos] == 32) {
        1
    } else if left >= 2 && s[pos] == 0xc2 && (s[pos + 1] == 0x85 || s[pos + 1] == 0xa0) {
        2
    } else if left >= 3 && wide_space(s[pos], s[pos + 1], s[pos + 2]) {
        3
    } else {
        0
    }
}

fn space_before(s: &[u8], lo: usize, hi: usize) -> (r: usize)
    requires
        lo <= hi <= s.len(),
    ensures
        r == ws_tail(s@.subrange(lo as int, hi as int)),
        r <= hi - lo,
{
    let n: usize = hi - lo;
    if n >= 1 && ((9 <= s[hi - 1] && s[hi - 1] <= 13) || s[hi - 1] == 32) {
        1
    } else if n >= 2 && s[hi - 2] == 0xc2 && (s[hi - 1] == 0x85 || s[hi - 1] == 0xa0) {
        2
    } else if n >= 3 && wide_space(s[hi - 3], s[hi - 2], s[hi - 1]) {
        3
    } else {
        0
    }
}

/// Where the text behind the white space at `pos` starts.
pub fn skip_space(s: &[u8], pos: usize) -> (r: usize)
    requires
        pos <= s.len(),
    ensures
        pos <= r <= s.len(),
        s@.skip(r as int) == trim_start(s@.skip(pos as int)),
{
    let mut i: usize = pos;
    loop
        invariant
            pos <= i <= s.len(),
            trim_start(s@.skip(pos as int)) == trim_start(s@.skip(i as int)),
        decreases s.len() - i,
    {
        let n: usize = space_at(s, i);
        if n == 0 {
            return i;
        }
        assert(s@.skip(i as int).skip(n as int) =~= s@.skip(i + n));
        i += n;
    }
}

/// Removes leading white space.
pub fn without_leading_space(s: &[u8]) -> (r: &[u8])
    ensures
        r@ == trim_start(s@),
{
    assert(s@.skip(0) =~= s@);
    let lo: usize = skip_space(s, 0);
    let r = vstd::slice::slice_subrange(s, lo, s.len());
    assert(r@ =~= s@.skip(lo as int));
    r
}

/// Removes the white space around a text.
pub fn trimmed(s: &[u8]) -> (r: &[u8])
    ensures
        r@ == trim(s@),
{
    assert(s@.skip(0) =~= s@);
    let lo: usize = skip_space(s, 0);
    let mut hi: usize = s.len();
    assert(s@.subrange(lo as int, hi as int) =~= s@.skip(lo as int));
    loop
        invariant
            lo <= hi <= s.len(),
            trim(s@) == trim_end(s@.subrange(lo as int, hi as int)),
        decreases hi,
    {
        let n: usize = space_before(s, lo, hi);
        if n == 0 {
            return vstd::slice::slice_subrange(s, lo, hi);
        }
        assert(s@.subrange(lo as int, hi as int).take(hi - lo - n) =~= s@.subrange(
            lo as int,
            hi - n,
        ));
        hi -= n;
    }
}

/// Removes trailing white space.
pub fn without_trailing_space(s: &[u8]) -> (r: &[u8])
    ensures
        r@ == trim_end(s@),
{
    let mut hi: usize = s.len();
    assert(s@.subrange(0, hi as int) =~= s@);
    loop
        invariant
            hi <= s.len(),
            trim_end(s@) == trim_end(s@.subrange(0, hi as int)),
        decreases hi,
    {
        let n: usize = space_before(s, 0, hi);
        if n == 0 {
            return vstd::slice::slice_subrange(s, 0, hi);
        }
        assert(s@.subrange(0, hi as int).take(hi - n) =~= s@.subrange(0, hi - n));
        hi -= n;
    }
}

/// The parts of `s` between separator bytes.
pub open spec fn split(s: Seq<u8>, sep: u8) -> Seq<Seq<u8>>
    decreases s.len(),
{
    let i = bytes::index_of_byte(s, sep, 0);
    if i < 0 || i >= s.len() {
        seq![s]
    } else {
        seq![s.take(i)] + split(s.skip(i + 1), sep)
    }
}

/// The place of a byte, counted from a later start.
pub proof fn lemma_index_skip(s: Seq<u8>, byte: u8, from: int, i: int)
    requires
        0 <= from <= i <= s.len(),
    ensures
        bytes::index_of_byte(s.skip(from), byte, i - from) == bytes::index_of_byte(s, byte, i)
            - from,
    decreases s.len() - i,
{
    if i < s.len() && s[i] != byte {
        lemma_index_skip(s, byte, from, i + 1);
    }
}

/// Splits a text at a separator byte.
pub fn split_at(s: &[u8], sep: u8) -> (r: Vec<Vec<u8>>)
    ensures
        bytes::views(r@) == split(s@, sep),
        r.len() > 0,
{
    let mut out: Vec<Vec<u8>> = Vec::new();
    let mut pos: usize = 0;
    proof {
        assert(s@.skip(0) =~= s@);
        assert(bytes::views(out@) =~= Seq::<Seq<u8>>::empty());
        assert(Seq::<Seq<u8>>::empty() + split(s@, sep) =~= split(s@, sep));
    }
    loop
        invariant
            pos <= s.len(),
            bytes::views(out@) + split(s@.skip(pos as int), sep) == split(s@, sep),
        decreases s.len() - pos,
    {
        let ghost before = bytes::views(out@);
        let ghost t = s@.skip(pos as int);
        let i: usize = bytes::find_byte(s, sep, pos);
        proof {
            lemma_index_skip(s@, sep, pos as int, pos as int);
            bytes::lemma_index_of_byte_range(s@, sep, pos as int);
        }
        let part: Vec<u8> = bytes::copy_range(s, pos, i);
        let ghost pv = part@;
        out.push(part);
        assert(bytes::views(out@) =~= before.push(pv));
        if i >= s.len() {
            assert(pv =~= t);
            assert(before + seq![t] =~= before.push(t));
            return out;
        }
        proof {
            assert(pv =~= t.take(i - pos));
            assert(t.skip(i - pos + 1) =~= s@.skip(i + 1));
            assert(before + (seq![pv] + split(s@.skip(i + 1), sep)) =~= before.push(pv) + split(
                s@.skip(i + 1),
                sep,
            ));
        }
        pos = i + 1;
    }
}

/// The text in front of the first `sep`, or all of it.
pub open spec fn before_byte(s: Seq<u8>, sep: u8) -> Seq<u8> {
    s.take(bytes::index_of_byte(s, sep, 0))
}

/// The lines of a list: comments (from `#` on) and white space removed,
/// empty lines left out.
pub open spec fn listed(lines: Seq<Seq<u8>>) -> Seq<Seq<u8>>
    decreases lines.len(),
{
    if lines.len() == 0 {
        Seq::empty()
    } else {
        let before = listed(lines.drop_last());
        let line = trim(before_byte(lines.last(), 35));
        if line.len() == 0 {
            before
        } else {
            before.push(line)
        }
    }
}

/// The entries of a symbol list: one per line, `#` starts a comment.
pub open spec fn list_entries(text: Seq<u8>) -> Seq<Seq<u8>> {
    listed(split(text, 10))
}

/// Reads the entries of a symbol list.
pub fn symbol_list(text: &[u8]) -> (r: Vec<Vec<u8>>)
    ensures
        bytes::views(r@) == list_entries(text@),
{
    let lines: Vec<Vec<u8>> = split_at(text, 10);
    let ghost lv = bytes::views(lines@);
    let mut out: Vec<Vec<u8>> = Vec::new();
    let mut i: usize = 0;
    proof {
        assert(lv.take(0) =~= Seq::<Seq<u8>>::empty());
        assert(bytes::views(out@) =~= Seq::<Seq<u8>>::empty());
    }
    while i < lines.len()
        invariant
            i <= lines.len(),
            lv == bytes::views(lines@),
            bytes::views(out@) == listed(lv.take(i as int)),
        decreases lines.len() - i,
    {
        assert(lv.take(i + 1).drop_last() =~= lv.take(i as int));
        assert(lv[i as int] == lines[i as int]@);
        let ghost before = bytes::views(out@);
        let end: usize = bytes::find_byte(lines[i].as_slice(), 35, 0);
        let head = vstd::slice::slice_subrange(lines[i].as_slice(), 0, end);
        assert(head@ =~= before_byte(lv[i as int], 35));
        let line = trimmed(head);
        if line.len() > 0 {
            let v: Vec<u8> = bytes::to_vec(line);
            out.push(v);
            assert(bytes::views(out@) =~= before.push(line@));
        }
        i += 1;
    }
    assert(lv.take(i as int) =~= lv);
    out
}

/// Where the word at the start of `s` ends.
pub open spec fn word_end(s: Seq<u8>, i: int) -> int
    decreases s.len() - i,
{
    if i < 0 || i >= s.len() || ws_head(s.skip(i)) > 0 {
        i
    } else {
        word_end(s, i + 1)
    }
}

/// The words of a text: what stands between white space.
pub open spec fn words(s: Seq<u8>) -> Seq<Seq<u8>>
    decreases s.len(),
    via words_decreases
{
    let t = trim_start(s);
    let n = word_end(t, 0);
    if t.len() == 0 || n <= 0 || n > t.len() {
        Seq::empty()
    } else {
        seq![t.take(n)] + words(t.skip(n))
    }
}

#[via_fn]
proof fn words_decreases(s: Seq<u8>) {
    lemma_trim_start_len(s);
}

proof fn lemma_trim_start_len(s: Seq<u8>)
    ensures
        trim_start(s).len() <= s.len(),
    decreases s.len(),
{
    if ws_head(s) > 0 {
        lemma_trim_start_len(s.skip(ws_head(s)));
    }
}

/// Splits a text into words.
pub fn split_words(s: &[u8]) -> (r: Vec<Vec<u8>>)
    ensures
        bytes::views(r@) == words(s@),
{
    let mut out: Vec<Vec<u8>> = Vec::new();
    let mut pos: usize = 0;
    proof {
        assert(s@.skip(0) =~= s@);
        assert(bytes::views(out@) =~= Seq::<Seq<u8>>::empty());
        assert(Seq::<Seq<u8>>::empty() + words(s@) =~= words(s@));
    }
    loop
        invariant
            pos <= s.len(),
            bytes::views(out@) + words(s@.skip(pos as int)) == words(s@),
        decreases s.len() - pos,
    {
        let ghost before = bytes::views(out@);
        let start: usize = skip_space(s, pos);
        let ghost t = s@.skip(start as int);
        if start >= s.len() {
            assert(t.len() == 0);
            assert(before + Seq::<Seq<u8>>::empty() =~= before);
            return out;
        }
        let mut i: usize = start;
        while i < s.len() && space_at(s, i) == 0
            invariant
                start <= i <= s.len(),
                t == s@.skip(start as int),
                word_end(t, 0) == word_end(t, i - start),
            decreases s.len() - i,
        {
            assert(t.skip(i - start) =~= s@.skip(i as int));
            i += 1;
        }
        proof {
            if i < s.len() {
                assert(t.skip(i - start) =~= s@.skip(i as int));
            }
            assert(word_end(t, 0) == i - start);
            lemma_trim_fixed(s@.skip(pos as int));
            if i == start {
                assert(t.skip(0) =~= t);
                assert(false);
            }
        }
        let word: Vec<u8> = bytes::copy_range(s, start, i);
        let ghost wv = word@;
        out.push(word);
        proof {
            assert(wv =~= t.take(i - start));
            assert(t.skip(i - start) =~= s@.skip(i as int));
            assert(bytes::views(out@) =~= before.push(wv));
            assert(before + (seq![wv] + words(s@.skip(i as int))) =~= before.push(wv) + words(
                s@.skip(i as int),
            ));
        }
        pos = i;
    }
}

/// No white space is left in front.
proof fn lemma_trim_fixed(s: Seq<u8>)
    ensures
        ws_head(trim_start(s)) == 0,
    decreases s.len(),
{
    if ws_head(s) > 0 {
        lemma_trim_fixed(s.skip(ws_head(s)));
    }
}

/// The value of a digit.
pub open spec fn digit(b: u8, radix: int) -> Option<int> {
    let v = if 48 <= b <= 57 {
        b - 48
    } else if 97 <= b <= 122 {
        b - 87
    } else if 65 <= b <= 90 {
        b - 55
    } else {
        99int
    };
    if v < radix {
        Some(v)
    } else {
        None
    }
}

/// The number that digits write.
pub open spec fn number(s: Seq<u8>, radix: int) -> Option<int>
    decreases s.len(),
{
    if s.len() == 0 {
        Some(0)
    } else {
        match (number(s.drop_last(), radix), digit(s.last(), radix)) {
            (Some(n), Some(d)) => Some(n * radix + d),
            _ => None,
        }
    }
}

/// The number that a text writes, if it does and the number is not above
/// `max`: digits behind an optional plus sign.
pub open spec fn parsed(s: Seq<u8>, radix: int, max: int) -> Option<int> {
    let t = if s.len() > 0 && s[0] == 43 {
        s.skip(1)
    } else {
        s
    };
    if t.len() == 0 {
        None
    } else {
        match number(t, radix) {
            Some(n) => if n <= max {
                Some(n)
            } else {
                None
            },
            None => None,
        }
    }
}

proof fn lemma_number_grows(s: Seq<u8>, radix: int, k: int)
    requires
        0 <= k <= s.len(),
        2 <= radix,
    ensures
        number(s, radix) is Some ==> number(s.take(k), radix) is Some && 0 <= number(
            s.take(k),
            radix,
        )->0 <= number(s, radix)->0,
    decreases s.len(),
{
    if k == s.len() {
        assert(s.take(k) =~= s);
        lemma_number_nonneg(s, radix);
    } else {
        lemma_number_grows(s.drop_last(), radix, k);
        assert(s.drop_last().take(k) =~= s.take(k));
        if number(s, radix) is Some {
            let n = number(s.drop_last(), radix)->0;
            assert(n * radix >= n) by (nonlinear_arith)
                requires
                    n >= 0,
                    radix >= 2,
            ;
        }
    }
}

proof fn lemma_number_nonneg(s: Seq<u8>, radix: int)
    requires
        2 <= radix,
    ensures
        number(s, radix) is Some ==> number(s, radix)->0 >= 0,
    decreases s.len(),
{
    if s.len() > 0 {
        lemma_number_nonneg(s.drop_last(), radix);
        if number(s, radix) is Some {
            let n = number(s.drop_last(), radix)->0;
            assert(n * radix >= 0) by (nonlinear_arith)
                requires
                    n >= 0,
                    radix >= 2,
            ;
        }
    }
}

fn digit_value(b: u8) -> (r: u8)
    ensures
        forall|radix: int|
            radix <= 36 ==> #[trigger] digit(b, radix) == if r < radix {
                Some(r as int)
            } else {
                None::<int>
            },
{
    if 48 <= b && b <= 57 {
        b - 48
    } else if 97 <= b && b <= 122 {
        b - 87
    } else if 65 <= b && b <= 90 {
        b - 55
    } else {
        99
    }
}

/// Reads a number in the given radix.
pub fn parse_number(s: &[u8], radix: u8, max: u64) -> (r: Option<u64>)
    requires
        2 <= radix <= 36,
    ensures
        match r {
            Some(n) => parsed(s@, radix as int, max as int) == Some(n as int),
            None => parsed(s@, radix as int, max as int) is None,
        },
{
    let start: usize = if s.len() > 0 && s[0] == 43 {
        1
    } else {
        0
    };
    if start >= s.len() {
        return None;
    }
    let ghost t = s@.skip(start as int);
    proof {
        if start == 0 {
            assert(t =~= s@);
        }
        assert(t.take(0) =~= Seq::<u8>::empty());
    }
    let mut n: u128 = 0;
    let mut i: usize = start;
    while i < s.len()
        invariant
            start <= i <= s.len(),
            2 <= radix <= 36,
            start <= 1,
            start < s.len(),
            t == s@.skip(start as int),
            start == 1 <==> s.len() > 0 && s[0] == 43,
            t == if s.len() > 0 && s[0] == 43 {
                s@.skip(1)
            } else {
                s@
            },
            n <= max,
            number(t.take(i - start), radix as int) == Some(n as int),
        decreases s.len() - i,
    {
        let d: u8 = digit_value(s[i]);
        proof {
            assert(t.take(i - start + 1).drop_last() =~= t.take(i - start));
            assert(t.take(i - start + 1).last() == s[i as int]);
            lemma_number_grows(t, radix as int, i - start + 1);
            assert(n * radix <= 0xffff_ffff_ffff_ffff * 36) by (nonlinear_arith)
                requires
                    n <= 0xffff_ffff_ffff_ffff,
                    radix <= 36,
            ;
        }
        if d >= radix {
            assert(digit(s[i as int], radix as int) is None);
            assert(number(t.take(i - start + 1), radix as int) is None);
            return None;
        }
        assert(digit(s[i as int], radix as int) == Some(d as int));
        let next: u128 = n * radix as u128 + d as u128;
        if next > max as u128 {
            return None;
        }
        n = next;
        i += 1;
    }
    assert(t.take(i - start) =~= t);
    Some(n as u64)
}

/// True when the text is valid UTF-8.
pub open spec fn is_text(s: Seq<u8>) -> bool {
    crate::input_files::strtab::valid_up_to(s) == s.len()
}

/// Tests that a text is valid UTF-8.
pub fn check_text(s: &[u8]) -> (r: bool)
    ensures
        r == is_text(s@),
{
    crate::input_files::strtab::count_valid(s) == s.len()
}

/// What `String::from_utf8_lossy` makes of bytes.
pub uninterp spec fn lossy(s: Seq<u8>) -> Seq<u8>;

/// Calls `String::from_utf8_lossy`, a fixed function of its input: it puts
/// the replacement character in the place of what is not valid UTF-8, and
/// leaves text as it is.
#[verifier::external_body]
pub(crate) fn from_lossy(s: &[u8]) -> (r: Vec<u8>)
    ensures
        r@ == lossy(s@),
        is_text(s@) ==> r@ == s@,
{
    String::from_utf8_lossy(s).into_owned().into_bytes()
}

/// Adds a name to a list.
pub fn push_name(list: &mut Vec<Vec<u8>>, v: Vec<u8>)
    ensures
        bytes::views(final(list)@) == bytes::views(old(list)@).push(v@),
{
    let ghost before = bytes::views(list@);
    let ghost vv = v@;
    list.push(v);
    assert(bytes::views(list@) =~= before.push(vv));
}

/// Adds names to a list.
pub fn push_names(list: &mut Vec<Vec<u8>>, names: &Vec<Vec<u8>>)
    ensures
        bytes::views(final(list)@) == bytes::views(old(list)@) + bytes::views(names@),
{
    let ghost start = bytes::views(list@);
    let ghost nv = bytes::views(names@);
    let mut i: usize = 0;
    assert(start + nv.take(0) =~= start);
    while i < names.len()
        invariant
            i <= names.len(),
            nv == bytes::views(names@),
            bytes::views(list@) == start + nv.take(i as int),
        decreases names.len() - i,
    {
        push_name(list, bytes::to_vec(names[i].as_slice()));
        assert(start + nv.take(i + 1) =~= (start + nv.take(i as int)).push(nv[i as int]));
        i += 1;
    }
    assert(nv.take(i as int) =~= nv);
}

/// Tests whether a list holds a name.
pub fn holds(list: &Vec<Vec<u8>>, name: &[u8]) -> (r: bool)
    ensures
        r == bytes::views(list@).contains(name@),
{
    let mut i: usize = 0;
    while i < list.len()
        invariant
            i <= list.len(),
            forall|k: int| 0 <= k < i ==> (#[trigger] list[k])@ != name@,
        decreases list.len() - i,
    {
        if bytes::same(list[i].as_slice(), name) {
            assert(bytes::views(list@)[i as int] == name@);
            return true;
        }
        i += 1;
    }
    proof {
        if bytes::views(list@).contains(name@) {
            let k = choose|k: int|
                0 <= k < bytes::views(list@).len() && bytes::views(list@)[k] == name@;
            assert(list[k]@ == name@);
        }
    }
    false
}

/// What stands before and behind the first occurrence of a byte.
pub open spec fn parts_at(s: Seq<u8>, sep: u8) -> Option<(Seq<u8>, Seq<u8>)> {
    let i = bytes::index_of_byte(s, sep, 0);
    if i >= s.len() {
        None
    } else {
        Some((s.take(i), s.skip(i + 1)))
    }
}

/// Splits a text at the first occurrence of a byte.
pub fn split_once(s: &[u8], sep: u8) -> (r: Option<(Vec<u8>, Vec<u8>)>)
    ensures
        match r {
            Some(p) => parts_at(s@, sep) == Some((p.0@, p.1@)),
            None => parts_at(s@, sep) is None,
        },
{
    proof {
        bytes::lemma_index_of_byte_range(s@, sep, 0);
    }
    let i: usize = bytes::find_byte(s, sep, 0);
    if i >= s.len() {
        return None;
    }
    let a: Vec<u8> = bytes::copy_range(s, 0, i);
    let b: Vec<u8> = bytes::copy_range(s, i + 1, s.len());
    assert(a@ =~= s@.take(i as int));
    assert(b@ =~= s@.skip(i + 1));
    Some((a, b))
}

} // verus!
