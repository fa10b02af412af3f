//! Character and string primitives shared by the compiler phases.
use unicode_xid::UnicodeXID;
use vstd::prelude::*;

verus! {

/// The white-space characters of the Unicode `White_Space` property, which
/// is what `char::is_whitespace` tests for.
pub open spec fn is_ws(c: char) -> bool {
    ||| c == ' '
    ||| ('\u{9}' <= c && c <= '\u{d}')
    ||| c == '\u{85}'
    ||| c == '\u{a0}'
    ||| c == '\u{1680}'
    ||| ('\u{2000}' <= c && c <= '\u{200a}')
    ||| c == '\u{2028}'
    ||| c == '\u{2029}'
    ||| c == '\u{202f}'
    ||| c == '\u{205f}'
    ||| c == '\u{3000}'
}

/// Whether `c` is a white-space character.
pub fn is_whitespace(c: char) -> (res: bool)
    ensures
        res == is_ws(c),
{
    c == ' ' || ('\u{9}' <= c && c <= '\u{d}') || c == '\u{85}' || c == '\u{a0}' || c == '\u{1680}'
        || ('\u{2000}' <= c && c <= '\u{200a}') || c == '\u{2028}' || c == '\u{2029}' || c
        == '\u{202f}' || c == '\u{205f}' || c == '\u{3000}'
}

/// The number of bytes of the UTF-8 encoding of `c`.
pub open spec fn utf8_width(c: char) -> nat {
    if (c as u32) < 0x80 {
        1
    } else if (c as u32) < 0x800 {
        2
    } else if (c as u32) < 0x10000 {
        3
    } else {
        4
    }
}

/// The number of bytes of the UTF-8 encoding of `c`.
pub fn char_width(c: char) -> (res: usize)
    ensures
        res == utf8_width(c),
{
    let v = c as u32;
    if v < 0x80 {
        1
    } else if v < 0x800 {
        2
    } else if v < 0x10000 {
        3
    } else {
        4
    }
}

/// The number of characters of `t` that take up the first `off` bytes of
/// its UTF-8 encoding; `None` when `off` is not at a character boundary or
/// beyond the end.
pub open spec fn char_count_at(t: Seq<char>, off: int) -> Option<int>
    decreases t.len(),
{
    if off == 0 {
        Some(0)
    } else if off < 0 || t.len() == 0 || off < utf8_width(t[0]) {
        None
    } else {
        match char_count_at(t.drop_first(), off - utf8_width(t[0])) {
            Some(k) => Some(k + 1),
            None => None,
        }
    }
}

/// The characters between the byte offsets `a` and `b` of `t`.
pub open spec fn byte_slice(t: Seq<char>, a: int, b: int) -> Seq<char> {
    t.subrange(char_count_at(t, a)->Some_0, char_count_at(t, b)->Some_0)
}

/// Byte offsets `a <= b` that are both character boundaries of `t`.
pub open spec fn sliceable(t: Seq<char>, a: int, b: int) -> bool {
    &&& char_count_at(t, a) is Some
    &&& char_count_at(t, b) is Some
    &&& a <= b
}

pub proof fn lemma_char_count_at(t: Seq<char>, off: int)
    ensures
        char_count_at(t, off) matches Some(k) ==> 0 <= k <= t.len(),
    decreases t.len(),
{
    if !(off == 0) && !(off < 0 || t.len() == 0 || off < utf8_width(t[0])) {
        lemma_char_count_at(t.drop_first(), off - utf8_width(t[0]));
    }
}

proof fn lemma_char_count_monotone(t: Seq<char>, a: int, b: int)
    requires
        char_count_at(t, a) is Some,
        char_count_at(t, b) is Some,
        a <= b,
    ensures
        char_count_at(t, a)->Some_0 <= char_count_at(t, b)->Some_0,
    decreases t.len(),
{
    if a != 0 && b != 0 {
        lemma_char_count_monotone(t.drop_first(), a - utf8_width(t[0]), b - utf8_width(t[0]));
    } else if a != 0 {
        lemma_char_count_at(t, b);
    } else {
        lemma_char_count_at(t, b);
    }
}

/// The number of characters of `v` that take up its first `off` bytes, if
/// `off` is at a character boundary.
pub fn char_index_of(v: &[char], off: usize) -> (res: Option<usize>)
    ensures
        match res {
            Some(k) => char_count_at(v@, off as int) == Some(k as int),
            None => char_count_at(v@, off as int) is None,
        },
{
    let mut i: usize = 0;
    let mut acc: usize = 0;
    assert(v@.skip(0) =~= v@);
    while acc < off && i < v.len()
        invariant
            i <= v@.len(),
            acc <= off,
            char_count_at(v@, off as int) == match char_count_at(v@.skip(i as int), off - acc) {
                Some(k) => Some(k + i),
                None => None::<int>,
            },
        decreases v@.len() - i,
    {
        let w = char_width(v[i]);
        assert(v@.skip(i as int)[0] == v@[i as int]);
        assert(v@.skip(i as int).drop_first() =~= v@.skip(i + 1));
        if off - acc < w {
            return None;
        }
        acc = acc + w;
        i = i + 1;
    }
    if acc == off {
        Some(i)
    } else {
        assert(v@.skip(i as int).len() == 0);
        None
    }
}

/// The characters between the byte offsets `a` and `b` of `s`, as
/// `&s[a..b]` gives them.
pub fn slice_bytes(s: &str, a: usize, b: usize) -> (res: String)
    requires
        sliceable(s@, a as int, b as int),
    ensures
        res@ == byte_slice(s@, a as int, b as int),
{
    let v = chars_of(s);
    proof {
        lemma_char_count_at(s@, a as int);
        lemma_char_count_at(s@, b as int);
        lemma_char_count_monotone(s@, a as int, b as int);
    }
    let ka = match char_index_of(v.as_slice(), a) {
        Some(k) => k,
        None => 0,
    };
    let kb = match char_index_of(v.as_slice(), b) {
        Some(k) => k,
        None => 0,
    };
    let w = sub_chars(v.as_slice(), ka, kb);
    string_from_chars(w.as_slice())
}

/// The characters of `s`, in order.
pub fn chars_of(s: &str) -> (res: Vec<char>)
    ensures
        res@ == s@,
{
    let mut res: Vec<char> = Vec::new();
    for c in it: s.chars()
        invariant
            res@ == it.seq().take(it.index() as int),
    {
        res.push(c);
    }
    res
}


/// `String::push`: appends `c` at the end of `s`.
#[verifier::external_body]
pub(crate) fn push_char(s: &mut String, c: char)
    ensures
        final(s)@ == old(s)@.push(c),
{
    s.push(c);
}

/// The string whose characters are `v`.
pub fn string_from_chars(v: &[char]) -> (res: String)
    ensures
        res@ == v@,
{
    let mut res = String::new();
    let mut i: usize = 0;
    while i < v.len()
        invariant
            i <= v@.len(),
            res@ == v@.take(i as int),
        decreases v@.len() - i,
    {
        push_char(&mut res, v[i]);
        i = i + 1;
        assert(res@ =~= v@.take(i as int));
    }
    assert(v@.take(v@.len() as int) =~= v@);
    res
}

/// Appends the characters of `t` to `s`.
pub fn push_chars(s: &mut String, t: &[char])
    ensures
        final(s)@ == old(s)@ + t@,
{
    let mut i: usize = 0;
    while i < t.len()
        invariant
            i <= t@.len(),
            s@ == old(s)@ + t@.take(i as int),
        decreases t@.len() - i,
    {
        push_char(s, t[i]);
        i = i + 1;
        assert(s@ =~= old(s)@ + t@.take(i as int));
    }
    assert(t@.take(t@.len() as int) =~= t@);
}

/// Appends the characters of `t` from index `from` on to `s`.
pub fn push_chars_from(s: &mut String, t: &[char], from: usize)
    requires
        from <= t@.len(),
    ensures
        final(s)@ == old(s)@ + t@.skip(from as int),
{
    let mut i: usize = from;
    while i < t.len()
        invariant
            from <= i <= t@.len(),
            s@ == old(s)@ + t@.subrange(from as int, i as int),
        decreases t@.len() - i,
    {
        push_char(s, t[i]);
        i = i + 1;
        assert(s@ =~= old(s)@ + t@.subrange(from as int, i as int));
    }
    assert(t@.subrange(from as int, t@.len() as int) =~= t@.skip(from as int));
}

/// `String::pop`: removes the last character of `s`, if any.
#[verifier::external_body]
pub(crate) fn pop_char(s: &mut String) -> (res: Option<char>)
    ensures
        old(s)@.len() > 0 ==> final(s)@ == old(s)@.drop_last() && res == Some(old(s)@.last()),
        old(s)@.len() == 0 ==> final(s)@ == old(s)@ && res is None,
{
    s.pop()
}

/// The first `n` characters of `v`.
pub fn take_chars(v: &[char], n: usize) -> (res: Vec<char>)
    requires
        n <= v@.len(),
    ensures
        res@ == v@.take(n as int),
{
    let mut res: Vec<char> = Vec::new();
    let mut i: usize = 0;
    while i < n
        invariant
            i <= n <= v@.len(),
            res@ == v@.take(i as int),
        decreases n - i,
    {
        res.push(v[i]);
        i = i + 1;
        assert(res@ =~= v@.take(i as int));
    }
    res
}

/// The characters of `v` from index `n` on.
pub fn skip_chars(v: &[char], n: usize) -> (res: Vec<char>)
    requires
        n <= v@.len(),
    ensures
        res@ == v@.skip(n as int),
{
    let mut res: Vec<char> = Vec::new();
    let mut i: usize = n;
    while i < v.len()
        invariant
            n <= i <= v@.len(),
            res@ == v@.subrange(n as int, i as int),
        decreases v@.len() - i,
    {
        res.push(v[i]);
        i = i + 1;
        assert(res@ =~= v@.subrange(n as int, i as int));
    }
    assert(v@.subrange(n as int, v@.len() as int) =~= v@.skip(n as int));
    res
}

/// The characters of `v` from index `a` up to, not including, index `b`.
pub fn sub_chars(v: &[char], a: usize, b: usize) -> (res: Vec<char>)
    requires
        a <= b <= v@.len(),
    ensures
        res@ == v@.subrange(a as int, b as int),
{
    let mut res: Vec<char> = Vec::new();
    let mut i: usize = a;
    while i < b
        invariant
            a <= i <= b <= v@.len(),
            res@ == v@.subrange(a as int, i as int),
        decreases b - i,
    {
        res.push(v[i]);
        i = i + 1;
        assert(res@ =~= v@.subrange(a as int, i as int));
    }
    res
}

/// Whether `a` and `b` hold the same characters.
pub fn chars_eq(a: &[char], b: &[char]) -> (res: bool)
    ensures
        res == (a@ == b@),
{
    if a.len() != b.len() {
        return false;
    }
    let mut i: usize = 0;
    while i < a.len()
        invariant
            i <= a@.len() == b@.len(),
            forall|j: int| 0 <= j < i ==> a@[j] == b@[j],
        decreases a@.len() - i,
    {
        if a[i] != b[i] {
            return false;
        }
        i = i + 1;
    }
    assert(a@ =~= b@);
    true
}

/// Whether the strings `a` and `b` are equal.
pub fn str_eq(a: &str, b: &str) -> (res: bool)
    ensures
        res == (a@ == b@),
{
    let x = chars_of(a);
    let y = chars_of(b);
    chars_eq(x.as_slice(), y.as_slice())
}

/// Appends `t` to `s`.
pub fn push_str(s: &mut String, t: &str)
    ensures
        final(s)@ == old(s)@ + t@,
{
    let v = chars_of(t);
    push_chars(s, v.as_slice());
}


/// The characters that `char::to_uppercase` yields for `c`.
pub uninterp spec fn upper_of(c: char) -> Seq<char>;

/// The characters that `char::to_lowercase` yields for `c`.
pub uninterp spec fn lower_of(c: char) -> Seq<char>;

/// The characters of `str::to_lowercase` applied to a string.
pub uninterp spec fn str_lower_of(s: Seq<char>) -> Seq<char>;

/// The characters of the `Debug` form of `c` (quoted and escaped).
pub uninterp spec fn debug_of(c: char) -> Seq<char>;

/// `format!("{:?}", c)`: the `Debug` form of a character. Its result is
/// named by `debug_of`; the escaping rules of `char::escape_debug` are not
/// stated.
#[verifier::external_body]
pub(crate) fn char_debug(c: char) -> (res: String)
    ensures
        res@ == debug_of(c),
{
    format!("{:?}", c)
}

/// Whether `char::is_alphanumeric` holds of `c`.
pub uninterp spec fn alphanumeric(c: char) -> bool;

/// Whether `c` has the Unicode `XID_Continue` property, as
/// `unicode_xid::UnicodeXID::is_xid_continue` decides it.
pub uninterp spec fn xid_continue(c: char) -> bool;

/// Whether `c` may continue an identifier: for ASCII characters a letter, a
/// digit or `_`; for other characters what `xid_continue` names.
pub open spec fn continues_identifier(c: char) -> bool {
    if (c as u32) < 0x80 {
        ('a' <= c && c <= 'z') || ('A' <= c && c <= 'Z') || ('0' <= c && c <= '9') || c == '_'
    } else {
        xid_continue(c)
    }
}

/// Whether `c` is an ASCII character.
pub open spec fn is_ascii_char(c: char) -> bool {
    (c as u32) < 0x80
}

/// Whether every character of `s` is ASCII.
pub open spec fn is_ascii_text(s: Seq<char>) -> bool {
    forall|i: int| 0 <= i < s.len() ==> is_ascii_char(#[trigger] s[i])
}

/// `c` in upper case when it is an ASCII lower-case letter; `c` otherwise.
pub open spec fn ascii_upper(c: char) -> char {
    if 'a' <= c && c <= 'z' {
        ((c as u32) - 32) as char
    } else {
        c
    }
}

/// `c` in lower case when it is an ASCII capital letter; `c` otherwise.
pub open spec fn ascii_lower(c: char) -> char {
    if 'A' <= c && c <= 'Z' {
        ((c as u32) + 32) as char
    } else {
        c
    }
}

/// `s` with its ASCII capital letters in lower case.
pub open spec fn ascii_lowered(s: Seq<char>) -> Seq<char> {
    s.map_values(|c: char| ascii_lower(c))
}

/// Whether `c` is an ASCII letter or digit.
pub open spec fn ascii_alphanumeric(c: char) -> bool {
    ('a' <= c && c <= 'z') || ('A' <= c && c <= 'Z') || ('0' <= c && c <= '9')
}

/// `char::to_uppercase`, collected into a string. Its result is named by
/// `upper_of`; for an ASCII character it is the character with an ASCII
/// lower-case letter turned into its capital, as the Unicode case mapping
/// of ASCII gives it. The rest of the Unicode case tables is not stated.
#[verifier::external_body]
pub(crate) fn char_to_uppercase(c: char) -> (res: String)
    ensures
        res@ == upper_of(c),
        is_ascii_char(c) ==> res@ == seq![ascii_upper(c)],
{
    c.to_uppercase().collect()
}

/// `char::to_lowercase`, collected into a string. Its result is named by
/// `lower_of`; for an ASCII character it is the character with an ASCII
/// capital turned into lower case. The rest of the Unicode case tables is
/// not stated.
#[verifier::external_body]
pub(crate) fn char_to_lowercase(c: char) -> (res: String)
    ensures
        res@ == lower_of(c),
        is_ascii_char(c) ==> res@ == seq![ascii_lower(c)],
{
    c.to_lowercase().collect()
}

/// `str::to_lowercase`. Its result is named by `str_lower_of`; for an
/// ASCII text it is the text with its ASCII capitals in lower case. The
/// rest of the Unicode case tables is not stated.
#[verifier::external_body]
pub(crate) fn str_to_lowercase(s: &str) -> (res: String)
    ensures
        res@ == str_lower_of(s@),
        is_ascii_text(s@) ==> res@ == ascii_lowered(s@),
{
    s.to_lowercase()
}

/// `char::is_alphanumeric`. Its result is named by `alphanumeric`; for an
/// ASCII character it holds exactly of letters and digits. The Unicode
/// tables that decide it for other characters are not stated.
#[verifier::external_body]
pub(crate) fn is_alphanumeric(c: char) -> (res: bool)
    ensures
        res == alphanumeric(c),
        is_ascii_char(c) ==> res == ascii_alphanumeric(c),
{
    c.is_alphanumeric()
}

/// `unicode_xid::UnicodeXID::is_xid_continue`. For ASCII characters the
/// crate's source decides it as `continues_identifier` states (letters,
/// digits and `_`); for other characters its result is named by
/// `xid_continue`, and the crate's tables are not stated.
#[verifier::external_body]
pub(crate) fn is_xid_continue(c: char) -> (res: bool)
    ensures
        res == continues_identifier(c),
        (c as u32) >= 0x80 ==> res == xid_continue(c),
{
    c.is_xid_continue()
}

} // verus!
