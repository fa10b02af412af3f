//! String helpers that turn tree titles into Solidity identifiers.
use vstd::prelude::*;

use crate::text::{
    skip_chars, sub_chars, take_chars,
    push_chars_from,
    push_str,
    char_to_lowercase, char_to_uppercase, chars_of, is_whitespace, is_ws, is_xid_continue,
    lower_of, push_char, string_from_chars, upper_of, continues_identifier,
};

verus! {

/// The separator between the contract and the function part of a tree root.
pub open spec fn contract_part_separator() -> Seq<char> {
    seq![':', ':']
}

/// The separator between two trees of one file.
pub open spec fn trees_separator() -> Seq<char> {
    seq!['\n', '\n']
}

/// `s` with its first character upper-cased.
pub open spec fn capitalized(s: Seq<char>) -> Seq<char> {
    if s.len() == 0 {
        s
    } else {
        upper_of(s[0]) + s.drop_first()
    }
}

/// `s` with its first character lower-cased.
pub open spec fn lower_first(s: Seq<char>) -> Seq<char> {
    if s.len() == 0 {
        s
    } else {
        lower_of(s[0]) + s.drop_first()
    }
}

/// What sanitizing turns one character into: `-` becomes `_`, and characters
/// that can not continue an identifier (spaces aside) are dropped.
pub open spec fn sanitized_char(c: char) -> Seq<char> {
    let d = if c == '-' {
        '_'
    } else {
        c
    };
    if continues_identifier(d) || d == ' ' {
        seq![d]
    } else {
        Seq::empty()
    }
}

/// `s` made into a valid identifier (spaces are kept).
pub open spec fn sanitized(s: Seq<char>) -> Seq<char>
    decreases s.len(),
{
    if s.len() == 0 {
        s
    } else {
        sanitized(s.drop_last()) + sanitized_char(s.last())
    }
}

/// Splitting `s` at white space, left to right: the words completed so far
/// and the word being read.
pub open spec fn split_ws(s: Seq<char>) -> (Seq<Seq<char>>, Seq<char>)
    decreases s.len(),
{
    if s.len() == 0 {
        (Seq::empty(), Seq::empty())
    } else {
        let (words, cur) = split_ws(s.drop_last());
        let c = s.last();
        if is_ws(c) {
            if cur.len() > 0 {
                (words.push(cur), Seq::empty())
            } else {
                (words, cur)
            }
        } else {
            (words, cur.push(c))
        }
    }
}

/// The maximal runs of non-white-space characters of `s`, in order.
pub open spec fn words(s: Seq<char>) -> Seq<Seq<char>> {
    let (ws, cur) = split_ws(s);
    if cur.len() > 0 {
        ws.push(cur)
    } else {
        ws
    }
}

/// The concatenation of the capitalized words of `ws`.
pub open spec fn pascal_of_words(ws: Seq<Seq<char>>) -> Seq<char>
    decreases ws.len(),
{
    if ws.len() == 0 {
        Seq::empty()
    } else {
        pascal_of_words(ws.drop_last()) + capitalized(ws.last())
    }
}

/// `s` in pascal case: its words capitalized and joined.
pub open spec fn pascal(s: Seq<char>) -> Seq<char> {
    pascal_of_words(words(s))
}

/// The modifier name of a condition title.
pub open spec fn modifier_name(title: Seq<char>) -> Seq<char> {
    lower_first(pascal(sanitized(title)))
}

/// `s` repeated `n` times.
pub open spec fn repeated(s: Seq<char>, n: nat) -> Seq<char>
    decreases n,
{
    if n == 0 {
        Seq::empty()
    } else {
        repeated(s, (n - 1) as nat) + s
    }
}

/// `d` occurs in `s` at index `i`.
pub open spec fn occurs_at(s: Seq<char>, d: Seq<char>, i: int) -> bool {
    0 <= i && i + d.len() <= s.len() && s.subrange(i, i + d.len()) == d
}

/// The first index at or after `i` at which `d` occurs in `s`.
pub open spec fn find_from(s: Seq<char>, d: Seq<char>, i: int) -> Option<int>
    decreases s.len() + 1 - i,
{
    if i < 0 || i + d.len() > s.len() {
        None
    } else if occurs_at(s, d, i) {
        Some(i)
    } else {
        find_from(s, d, i + 1)
    }
}

/// Splits `s` at the non-overlapping occurrences of `d`, left to right,
/// keeping each occurrence at the end of the piece before it.
pub open spec fn split_keep(s: Seq<char>, d: Seq<char>) -> Seq<Seq<char>>
    recommends
        d.len() > 0,
    decreases s.len(),
{
    if d.len() == 0 {
        seq![s]
    } else {
        match find_from(s, d, 0) {
            Some(i) => if 0 <= i && i + d.len() <= s.len() {
                seq![s.take(i + d.len())] + split_keep(s.skip(i + d.len()), d)
            } else {
                seq![s]
            },
            None => seq![s],
        }
    }
}

/// Splits `s` at the non-overlapping occurrences of `d`, left to right,
/// dropping the occurrences (as `str::split` does).
pub open spec fn split_on(s: Seq<char>, d: Seq<char>) -> Seq<Seq<char>>
    recommends
        d.len() > 0,
    decreases s.len(),
{
    if d.len() == 0 {
        seq![s]
    } else {
        match find_from(s, d, 0) {
            Some(i) => if 0 <= i && i + d.len() <= s.len() {
                seq![s.take(i)] + split_on(s.skip(i + d.len()), d)
            } else {
                seq![s]
            },
            None => seq![s],
        }
    }
}

/// The number of white-space characters at the start of `s`.
pub open spec fn leading_ws(s: Seq<char>) -> nat
    decreases s.len(),
{
    if s.len() > 0 && is_ws(s[0]) {
        1 + leading_ws(s.drop_first())
    } else {
        0
    }
}

/// The number of white-space characters at the end of `s`.
pub open spec fn trailing_ws(s: Seq<char>) -> nat
    decreases s.len(),
{
    if s.len() > 0 && is_ws(s.last()) {
        1 + trailing_ws(s.drop_last())
    } else {
        0
    }
}

/// `s` without leading and trailing white space.
pub open spec fn trimmed(s: Seq<char>) -> Seq<char> {
    let a = leading_ws(s);
    if a == s.len() {
        Seq::empty()
    } else {
        s.subrange(a as int, s.len() - trailing_ws(s))
    }
}


/// Upper-cases the first character of `s`.
pub fn capitalize_first_letter(s: &str) -> (res: String)
    ensures
        res@ == capitalized(s@),
{
    let v = chars_of(s);
    capitalize_chars(v.as_slice())
}

/// Upper-cases the first character of `v`.
pub fn capitalize_chars(v: &[char]) -> (res: String)
    ensures
        res@ == capitalized(v@),
{
    if v.len() == 0 {
        return String::new();
    }
    let mut res = char_to_uppercase(v[0]);
    push_chars_from(&mut res, v, 1);
    assert(v@.skip(1) =~= v@.drop_first());
    res
}

/// Lower-cases the first character of `s`.
pub fn lower_first_letter(s: &str) -> (res: String)
    ensures
        res@ == lower_first(s@),
{
    let v = chars_of(s);
    lower_first_chars(v.as_slice())
}

/// Lower-cases the first character of `v`.
pub fn lower_first_chars(v: &[char]) -> (res: String)
    ensures
        res@ == lower_first(v@),
{
    if v.len() == 0 {
        return String::new();
    }
    let mut res = char_to_lowercase(v[0]);
    push_chars_from(&mut res, v, 1);
    assert(v@.skip(1) =~= v@.drop_first());
    res
}

/// Makes `identifier` a valid Solidity identifier: `-` becomes `_`, and
/// every character that can not continue an identifier, other than a space,
/// is removed.
pub fn sanitize(identifier: &str) -> (res: String)
    ensures
        res@ == sanitized(identifier@),
{
    let v = chars_of(identifier);
    sanitize_chars(v.as_slice())
}

/// `sanitize` on a slice of characters.
pub fn sanitize_chars(v: &[char]) -> (res: String)
    ensures
        res@ == sanitized(v@),
{
    let mut res = String::new();
    let mut i: usize = 0;
    while i < v.len()
        invariant
            i <= v@.len(),
            res@ == sanitized(v@.take(i as int)),
        decreases v@.len() - i,
    {
        let c = v[i];
        let d = if c == '-' {
            '_'
        } else {
            c
        };
        if is_xid_continue(d) || d == ' ' {
            push_char(&mut res, d);
        }
        assert(v@.take(i + 1).drop_last() =~= v@.take(i as int));
        i = i + 1;
    }
    assert(v@.take(v@.len() as int) =~= v@);
    res
}

/// Converts a sentence to pascal case: every white-space separated word is
/// capitalized and the words are joined. For example, `when only owner`
/// becomes `WhenOnlyOwner`.
pub fn to_pascal_case(sentence: &str) -> (res: String)
    ensures
        res@ == pascal(sentence@),
{
    let v = chars_of(sentence);
    pascal_chars(v.as_slice())
}

/// `to_pascal_case` on a slice of characters.
pub fn pascal_chars(v: &[char]) -> (res: String)
    ensures
        res@ == pascal(v@),
{
    let mut res = String::new();
    let mut cur: Vec<char> = Vec::new();
    let mut i: usize = 0;
    while i < v.len()
        invariant
            i <= v@.len(),
            split_ws(v@.take(i as int)).1 == cur@,
            res@ == pascal_of_words(split_ws(v@.take(i as int)).0),
        decreases v@.len() - i,
    {
        let c = v[i];
        assert(v@.take(i + 1).drop_last() =~= v@.take(i as int));
        let ghost ws = split_ws(v@.take(i as int)).0;
        if is_whitespace(c) {
            if cur.len() > 0 {
                assert(ws.push(cur@).drop_last() =~= ws);
                let w = capitalize_chars(cur.as_slice());
                push_str(&mut res, w.as_str());
                cur = Vec::new();
            }
        } else {
            cur.push(c);
        }
        i = i + 1;
    }
    assert(v@.take(v@.len() as int) =~= v@);
    if cur.len() > 0 {
        let ghost ws = split_ws(v@).0;
        assert(ws.push(cur@).drop_last() =~= ws);
        let w = capitalize_chars(cur.as_slice());
        push_str(&mut res, w.as_str());
    }
    res
}

/// `s` repeated `n` times.
pub fn repeat_str(s: &str, n: usize) -> (res: String)
    ensures
        res@ == repeated(s@, n as nat),
{
    let mut res = String::new();
    let mut i: usize = 0;
    while i < n
        invariant
            i <= n,
            res@ == repeated(s@, i as nat),
        decreases n - i,
    {
        push_str(&mut res, s);
        i = i + 1;
    }
    res
}

/// Sanitizing a sanitized character changes nothing.
proof fn lemma_sanitized_char_twice(c: char)
    ensures
        sanitized(sanitized_char(c)) == sanitized_char(c),
{
    let t = sanitized_char(c);
    if t.len() == 1 {
        let d = t[0];
        assert(d != '-');
        assert(('_' as u32) < 0x80);
        assert(continues_identifier(d) || d == ' ');
        assert(sanitized_char(d) =~= seq![d]);
        assert(t.drop_last() =~= Seq::<char>::empty());
        assert(t.last() == d);
        assert(sanitized(t) == sanitized(t.drop_last()) + sanitized_char(t.last()));
        assert(sanitized(t.drop_last()) =~= Seq::<char>::empty());
        assert(sanitized(t) =~= t);
    } else {
        assert(t =~= Seq::<char>::empty());
    }
}

/// Sanitizing distributes over concatenation.
proof fn lemma_sanitized_concat(a: Seq<char>, b: Seq<char>)
    ensures
        sanitized(a + b) == sanitized(a) + sanitized(b),
    decreases b.len(),
{
    if b.len() == 0 {
        assert(a + b =~= a);
        assert(sanitized(b) =~= Seq::<char>::empty());
    } else {
        lemma_sanitized_concat(a, b.drop_last());
        assert((a + b).drop_last() =~= a + b.drop_last());
        assert((a + b).last() == b.last());
    }
}

/// Sanitizing is idempotent: a sanitized identifier is left as it is.
pub proof fn law_sanitize_idempotent(s: Seq<char>)
    ensures
        sanitized(sanitized(s)) == sanitized(s),
    decreases s.len(),
{
    if s.len() > 0 {
        law_sanitize_idempotent(s.drop_last());
        lemma_sanitized_concat(sanitized(s.drop_last()), sanitized_char(s.last()));
        lemma_sanitized_char_twice(s.last());
    }
}

/// Splitting with the delimiter retained loses nothing: the pieces put back
/// together give the input.
pub proof fn law_split_keep_concat(s: Seq<char>, d: Seq<char>)
    ensures
        split_keep(s, d).flatten() == s,
    decreases s.len(),
{
    if d.len() == 0 {
        seq![s].lemma_flatten_one_element();
    } else {
        lemma_find_from_bounds(s, d, 0);
        match find_from(s, d, 0) {
            Some(i) => if 0 <= i && i + d.len() <= s.len() {
                let head = s.take(i + d.len());
                let rest = s.skip(i + d.len());
                law_split_keep_concat(rest, d);
                vstd::seq_lib::lemma_flatten_concat(seq![head], split_keep(rest, d));
                seq![head].lemma_flatten_one_element();
                assert(head + rest =~= s);
            } else {
                seq![s].lemma_flatten_one_element();
            },
            None => {
                seq![s].lemma_flatten_one_element();
            },
        }
    }
}

/// The decimal digit of `d`, for `d < 10`.
pub open spec fn digit_of(d: nat) -> char {
    if d == 0 { '0' } else if d == 1 { '1' } else if d == 2 { '2' } else if d == 3 { '3' } else if d
        == 4 { '4' } else if d == 5 { '5' } else if d == 6 { '6' } else if d == 7 { '7' } else if d
        == 8 { '8' } else { '9' }
}

/// The decimal notation of `n`, without leading zeros.
pub open spec fn decimal_of(n: nat) -> Seq<char>
    decreases n,
{
    if n < 10 {
        seq![digit_of(n)]
    } else {
        decimal_of(n / 10).push(digit_of(n % 10))
    }
}

/// The decimal digit of `d`.
fn digit(d: usize) -> (res: char)
    requires
        d < 10,
    ensures
        res == digit_of(d as nat),
{
    match d {
        0 => '0',
        1 => '1',
        2 => '2',
        3 => '3',
        4 => '4',
        5 => '5',
        6 => '6',
        7 => '7',
        8 => '8',
        _ => '9',
    }
}

/// The decimal notation of `n`, as `usize::to_string` writes it.
pub fn decimal(n: usize) -> (res: String)
    ensures
        res@ == decimal_of(n as nat),
    decreases n,
{
    if n < 10 {
        let mut s = String::new();
        push_char(&mut s, digit(n));
        assert(s@ =~= seq![digit_of(n as nat)]);
        s
    } else {
        let mut s = decimal(n / 10);
        push_char(&mut s, digit(n % 10));
        s
    }
}

/// The pieces joined with `sep` between each two of them.
pub open spec fn joined(ps: Seq<Seq<char>>, sep: Seq<char>) -> Seq<char>
    decreases ps.len(),
{
    if ps.len() == 0 {
        Seq::empty()
    } else if ps.len() == 1 {
        ps[0]
    } else {
        joined(ps.drop_last(), sep) + sep + ps.last()
    }
}

/// `s` with every non-overlapping occurrence of `from`, left to right,
/// replaced by `to` (as `str::replace` does for a non-empty pattern).
pub open spec fn replaced(s: Seq<char>, from: Seq<char>, to: Seq<char>) -> Seq<char> {
    joined(split_on(s, from), to)
}

/// `s` without white space at its end.
pub open spec fn trimmed_end(s: Seq<char>) -> Seq<char> {
    s.take(s.len() - trailing_ws(s))
}

proof fn lemma_trailing_ws_bound(s: Seq<char>)
    ensures
        trailing_ws(s) <= s.len(),
    decreases s.len(),
{
    if s.len() > 0 && is_ws(s.last()) {
        lemma_trailing_ws_bound(s.drop_last());
    }
}

/// The strings of `v` joined with `sep` between each two of them.
pub fn join_strings(v: &Vec<String>, sep: &str) -> (res: String)
    ensures
        res@ == joined(v.deep_view(), sep@),
{
    let mut res = String::new();
    let mut i: usize = 0;
    assert(v.deep_view().take(0) =~= Seq::<Seq<char>>::empty());
    while i < v.len()
        invariant
            i <= v@.len(),
            res@ == joined(v.deep_view().take(i as int), sep@),
        decreases v@.len() - i,
    {
        assert(v.deep_view().take(i + 1).drop_last() =~= v.deep_view().take(i as int));
        if i > 0 {
            push_str(&mut res, sep);
        } else {
            assert(v.deep_view().take(1) =~= seq![v@[0]@]);
        }
        push_str(&mut res, v[i].as_str());
        i = i + 1;
    }
    assert(v.deep_view().take(v@.len() as int) =~= v.deep_view());
    res
}

/// `s` with every occurrence of `from` replaced by `to`.
pub fn replace_str(s: &str, from: &str, to: &str) -> (res: String)
    requires
        from@.len() > 0,
    ensures
        res@ == replaced(s@, from@, to@),
{
    let sv = chars_of(s);
    let fv = chars_of(from);
    let pieces = split_on_exec(sv.as_slice(), fv.as_slice());
    let mut strs: Vec<String> = Vec::new();
    let mut i: usize = 0;
    while i < pieces.len()
        invariant
            i <= pieces@.len(),
            strs@.len() == i,
            forall|k: int| 0 <= k < i ==> #[trigger] strs@[k]@ == pieces@[k]@,
        decreases pieces@.len() - i,
    {
        strs.push(string_from_chars(pieces[i].as_slice()));
        i = i + 1;
    }
    assert(strs.deep_view() =~= split_on(s@, from@));
    join_strings(&strs, to)
}

/// `s` without white space at its end.
pub fn trim_end_str(s: &str) -> (res: String)
    ensures
        res@ == trimmed_end(s@),
{
    let v = chars_of(s);
    let mut n = v.len();
    proof {
        lemma_trailing_ws_bound(s@);
    }
    assert(v@.take(n as int) =~= v@);
    while n > 0 && is_whitespace(v[n - 1])
        invariant
            n <= v@.len(),
            v@ == s@,
            trailing_ws(v@) == (v@.len() - n) + trailing_ws(v@.take(n as int)),
        decreases n,
    {
        assert(v@.take(n as int).drop_last() =~= v@.take(n - 1));
        n = n - 1;
    }
    assert(trailing_ws(v@.take(n as int)) == 0);
    let t = take_chars(v.as_slice(), n);
    string_from_chars(t.as_slice())
}

/// Picks the singular word when `count` is one, the plural one otherwise.
pub fn pluralize<'a>(count: usize, singular: &'a str, plural: &'a str) -> (res: &'a str)
    ensures
        res == (if count == 1 {
            singular
        } else {
            plural
        }),
{
    if count == 1 {
        singular
    } else {
        plural
    }
}


/// The tree texts of a file: the pieces between occurrences of the tree
/// separator, trimmed, empty ones dropped; a file of white space only is a
/// single empty tree.
pub open spec fn tree_texts(s: Seq<char>) -> Seq<Seq<char>> {
    if trimmed(s).len() == 0 {
        seq![Seq::empty()]
    } else {
        nonempty_trimmed(split_on(s, trees_separator()))
    }
}

/// The trimmed pieces that are not empty once trimmed, in order.
pub open spec fn nonempty_trimmed(pieces: Seq<Seq<char>>) -> Seq<Seq<char>>
    decreases pieces.len(),
{
    if pieces.len() == 0 {
        Seq::empty()
    } else {
        let rest = nonempty_trimmed(pieces.drop_last());
        let t = trimmed(pieces.last());
        if t.len() > 0 {
            rest.push(t)
        } else {
            rest
        }
    }
}

/// The contract part of a tree root identifier, sanitized, if it is not
/// blank.
pub open spec fn contract_name_of(id: Seq<char>) -> Option<Seq<char>> {
    let name = sanitized(split_on(id, contract_part_separator())[0]);
    if trimmed(name).len() == 0 {
        None
    } else {
        Some(name)
    }
}

/// The function part of a tree root identifier, sanitized, if there is one
/// and it is not blank.
pub open spec fn function_name_of(id: Seq<char>) -> Option<Seq<char>> {
    let parts = split_on(id, contract_part_separator());
    if parts.len() < 2 {
        None
    } else {
        let name = sanitized(parts[1]);
        if trimmed(name).len() == 0 {
            None
        } else {
            Some(name)
        }
    }
}

proof fn lemma_find_from_bounds(s: Seq<char>, d: Seq<char>, i: int)
    ensures
        find_from(s, d, i) matches Some(j) ==> i <= j && occurs_at(s, d, j),
    decreases s.len() + 1 - i,
{
    if !(i < 0 || i + d.len() > s.len()) && !occurs_at(s, d, i) {
        lemma_find_from_bounds(s, d, i + 1);
    }
}

/// Whether `d` occurs in `s` at index `i`.
fn occurs_at_exec(s: &[char], d: &[char], i: usize) -> (res: bool)
    ensures
        res == occurs_at(s@, d@, i as int),
{
    if i > s.len() || s.len() - i < d.len() {
        return false;
    }
    let mut k: usize = 0;
    let n = s.len();
    while k < d.len()
        invariant
            n == s@.len(),
            i <= s@.len(),
            d@.len() <= s@.len() - i,
            k <= d@.len(),
            forall|j: int| 0 <= j < k ==> s@[i + j] == d@[j],
        decreases d@.len() - k,
    {
        if s[i + k] != d[k] {
            assert(s@.subrange(i as int, i + d@.len())[k as int] != d@[k as int]);
            return false;
        }
        k = k + 1;
    }
    assert(s@.subrange(i as int, i + d@.len()) =~= d@);
    true
}

/// The first index at or after `i` at which `d` occurs in `s`.
fn find_exec(s: &[char], d: &[char]) -> (res: Option<usize>)
    requires
        d@.len() > 0,
    ensures
        match res {
            Some(j) => find_from(s@, d@, 0) == Some(j as int),
            None => find_from(s@, d@, 0) is None,
        },
{
    let mut j: usize = 0;
    while j <= s.len()
        invariant
            d@.len() > 0,
            j <= s@.len() + 1,
            find_from(s@, d@, 0) == find_from(s@, d@, j as int),
        decreases s@.len() + 1 - j,
    {
        if s.len() - j < d.len() {
            return None;
        }
        if occurs_at_exec(s, d, j) {
            return Some(j);
        }
        j = j + 1;
    }
    None
}

/// Splits `s` at the occurrences of `delimiter`, keeping each occurrence at
/// the end of the piece before it. The last piece is what follows the last
/// occurrence, empty if `s` ends with one. An empty delimiter leaves `s`
/// whole.
pub fn split_and_retain_delimiter(s: &str, delimiter: &str) -> (res: Vec<String>)
    ensures
        res.deep_view() == split_keep(s@, delimiter@),
{
    let sv = chars_of(s);
    let dv = chars_of(delimiter);
    let mut res: Vec<String> = Vec::new();
    if dv.len() == 0 {
        res.push(string_from_chars(sv.as_slice()));
        assert(res.deep_view() =~= split_keep(s@, delimiter@));
        return res;
    }
    let mut rest = sv;
    loop
        invariant
            dv@ == delimiter@,
            dv@.len() > 0,
            split_keep(s@, delimiter@) == res.deep_view() + split_keep(rest@, dv@),
        decreases rest@.len(),
    {
        let found = find_exec(rest.as_slice(), dv.as_slice());
        proof {
            lemma_find_from_bounds(rest@, dv@, 0);
        }
        match found {
            Some(i) => {
                assert(occurs_at(rest@, dv@, i as int));
                let rl = rest.len();
                assert(i + dv.len() <= rl);
                let piece = take_chars(rest.as_slice(), i + dv.len());
                let ghost old_res = res.deep_view();
                res.push(string_from_chars(piece.as_slice()));
                assert(res.deep_view() =~= old_res.push(piece@));
                let next = skip_chars(rest.as_slice(), i + dv.len());
                assert(split_keep(rest@, dv@) == seq![piece@] + split_keep(next@, dv@));
                assert(old_res + (seq![piece@] + split_keep(next@, dv@)) =~= old_res.push(piece@)
                    + split_keep(next@, dv@));
                rest = next;
            },
            None => {
                let ghost old_res = res.deep_view();
                res.push(string_from_chars(rest.as_slice()));
                assert(res.deep_view() =~= old_res.push(rest@));
                assert(split_keep(rest@, dv@) == seq![rest@]);
                assert(old_res + seq![rest@] =~= old_res.push(rest@));
                return res;
            },
        }
    }
}

/// `split_on` on slices of characters, each piece as a vector.
pub(crate) fn split_on_exec(s: &[char], d: &[char]) -> (res: Vec<Vec<char>>)
    requires
        d@.len() > 0,
    ensures
        res@.len() == split_on(s@, d@).len(),
        forall|k: int| 0 <= k < res@.len() ==> #[trigger] res@[k]@ == split_on(s@, d@)[k],
{
    let mut res: Vec<Vec<char>> = Vec::new();
    let mut rest = take_chars(s, s.len());
    assert(s@.take(s@.len() as int) =~= s@);
    loop
        invariant
            d@.len() > 0,
            split_on(s@, d@) == seq_views(res@) + split_on(rest@, d@),
        decreases rest@.len(),
    {
        let found = find_exec(rest.as_slice(), d);
        proof {
            lemma_find_from_bounds(rest@, d@, 0);
        }
        match found {
            Some(i) => {
                assert(occurs_at(rest@, d@, i as int));
                let rl = rest.len();
                assert(i + d.len() <= rl);
                let piece = take_chars(rest.as_slice(), i);
                let ghost old_res = seq_views(res@);
                let ghost p = piece@;
                res.push(piece);
                assert(seq_views(res@) =~= old_res.push(p));
                let next = skip_chars(rest.as_slice(), i + d.len());
                assert(split_on(rest@, d@) == seq![p] + split_on(next@, d@));
                assert(old_res + (seq![p] + split_on(next@, d@)) =~= old_res.push(p) + split_on(
                    next@,
                    d@,
                ));
                rest = next;
            },
            None => {
                let ghost old_res = seq_views(res@);
                let ghost p = rest@;
                res.push(rest);
                assert(seq_views(res@) =~= old_res.push(p));
                assert(split_on(p, d@) == seq![p]);
                assert(old_res + seq![p] =~= old_res.push(p));
                assert(forall|k: int| 0 <= k < res@.len() ==> #[trigger] res@[k]@ == seq_views(res@)[k]);
                return res;
            },
        }
    }
}

/// The views of the vectors of `v`.
pub open spec fn seq_views(v: Seq<Vec<char>>) -> Seq<Seq<char>> {
    Seq::new(v.len(), |k: int| v[k]@)
}

/// `v` without leading and trailing white space.
pub fn trim_chars(v: &[char]) -> (res: Vec<char>)
    ensures
        res@ == trimmed(v@),
{
    let mut a: usize = 0;
    assert(v@.skip(0) =~= v@);
    while a < v.len() && is_whitespace(v[a])
        invariant
            a <= v@.len(),
            leading_ws(v@) == a + leading_ws(v@.skip(a as int)),
        decreases v@.len() - a,
    {
        assert(v@.skip(a as int).drop_first() =~= v@.skip(a + 1));
        a = a + 1;
    }
    if a == v.len() {
        assert(leading_ws(v@.skip(a as int)) == 0);
        return Vec::new();
    }
    assert(leading_ws(v@.skip(a as int)) == 0);
    let mut b: usize = v.len();
    assert(v@.take(v@.len() as int) =~= v@);
    while b > a && is_whitespace(v[b - 1])
        invariant
            a < v@.len(),
            !is_ws(v@[a as int]),
            a < b <= v@.len(),
            trailing_ws(v@) == (v@.len() - b) + trailing_ws(v@.take(b as int)),
        decreases b,
    {
        assert(v@.take(b as int).drop_last() =~= v@.take(b - 1));
        b = b - 1;
    }
    assert(b > a);
    assert(trailing_ws(v@.take(b as int)) == 0);
    sub_chars(v, a, b)
}

/// Splits a file into the texts of its trees, which are separated by two
/// successive newlines. Each tree text is trimmed and blank ones are
/// dropped; a blank file yields one empty tree.
pub fn split_trees(text: &str) -> (res: Vec<String>)
    ensures
        res.deep_view() == tree_texts(text@),
{
    let v = chars_of(text);
    let t = trim_chars(v.as_slice());
    let mut res: Vec<String> = Vec::new();
    if t.len() == 0 {
        res.push(String::new());
        assert(res.deep_view() =~= tree_texts(text@));
        return res;
    }
    let sep = vec!['\n', '\n'];
    assert(sep@ =~= trees_separator());
    let pieces = split_on_exec(v.as_slice(), sep.as_slice());
    assert(seq_views(pieces@) =~= split_on(text@, trees_separator()));
    let mut i: usize = 0;
    while i < pieces.len()
        invariant
            seq_views(pieces@) == split_on(text@, trees_separator()),
            i <= pieces@.len(),
            res.deep_view() == nonempty_trimmed(seq_views(pieces@).take(i as int)),
        decreases pieces@.len() - i,
    {
        let piece = trim_chars(pieces[i].as_slice());
        assert(seq_views(pieces@).take(i + 1).drop_last() =~= seq_views(pieces@).take(i as int));
        if piece.len() > 0 {
            let ghost old_res = res.deep_view();
            res.push(string_from_chars(piece.as_slice()));
            assert(res.deep_view() =~= old_res.push(piece@));
        }
        i = i + 1;
    }
    assert(seq_views(pieces@).take(pieces@.len() as int) =~= seq_views(pieces@));
    res
}

/// The contract name of a tree root identifier (the part before `::`),
/// sanitized; `None` if it is blank.
pub fn get_contract_name_from_identifier(identifier: &str) -> (res: Option<String>)
    ensures
        match res {
            Some(name) => contract_name_of(identifier@) == Some(name@),
            None => contract_name_of(identifier@) is None,
        },
{
    let v = chars_of(identifier);
    let sep = vec![':', ':'];
    assert(sep@ =~= contract_part_separator());
    let parts = split_on_exec(v.as_slice(), sep.as_slice());
    assert(split_on(identifier@, contract_part_separator()).len() > 0);
    let name = sanitize_chars(parts[0].as_slice());
    let nv = chars_of(name.as_str());
    let t = trim_chars(nv.as_slice());
    if t.len() == 0 {
        None
    } else {
        Some(name)
    }
}

/// The function name of a tree root identifier (the part after `::`),
/// sanitized; `None` if there is none or it is blank.
pub fn get_function_name_from_identifier(identifier: &str) -> (res: Option<String>)
    ensures
        match res {
            Some(name) => function_name_of(identifier@) == Some(name@),
            None => function_name_of(identifier@) is None,
        },
{
    let v = chars_of(identifier);
    let sep = vec![':', ':'];
    assert(sep@ =~= contract_part_separator());
    let parts = split_on_exec(v.as_slice(), sep.as_slice());
    if parts.len() < 2 {
        return None;
    }
    let name = sanitize_chars(parts[1].as_slice());
    let nv = chars_of(name.as_str());
    let t = trim_chars(nv.as_slice());
    if t.len() == 0 {
        None
    } else {
        Some(name)
    }
}


/// The words of `v`: its maximal runs of non-white-space characters.
pub fn words_exec(v: &[char]) -> (res: Vec<Vec<char>>)
    ensures
        seq_views(res@) == words(v@),
{
    let mut res: Vec<Vec<char>> = Vec::new();
    let mut cur: Vec<char> = Vec::new();
    let mut i: usize = 0;
    assert(seq_views(res@) =~= Seq::<Seq<char>>::empty());
    while i < v.len()
        invariant
            i <= v@.len(),
            split_ws(v@.take(i as int)).1 == cur@,
            split_ws(v@.take(i as int)).0 == seq_views(res@),
        decreases v@.len() - i,
    {
        let c = v[i];
        assert(v@.take(i + 1).drop_last() =~= v@.take(i as int));
        if is_whitespace(c) {
            if cur.len() > 0 {
                let ghost old_res = seq_views(res@);
                let ghost w = cur@;
                res.push(cur);
                assert(seq_views(res@) =~= old_res.push(w));
                cur = Vec::new();
            }
        } else {
            cur.push(c);
        }
        i = i + 1;
    }
    assert(v@.take(v@.len() as int) =~= v@);
    if cur.len() > 0 {
        let ghost old_res = seq_views(res@);
        let ghost w = cur@;
        res.push(cur);
        assert(seq_views(res@) =~= old_res.push(w));
    }
    res
}

/// The concatenation of the capitalized words of `ws` from index `from` on.
pub fn pascal_of_words_from(ws: &Vec<Vec<char>>, from: usize) -> (res: String)
    requires
        from <= ws@.len(),
    ensures
        res@ == pascal_of_words(seq_views(ws@).skip(from as int)),
{
    let mut res = String::new();
    let mut i = from;
    assert(seq_views(ws@).subrange(from as int, from as int) =~= Seq::<Seq<char>>::empty());
    while i < ws.len()
        invariant
            from <= i <= ws@.len(),
            res@ == pascal_of_words(seq_views(ws@).subrange(from as int, i as int)),
        decreases ws@.len() - i,
    {
        let w = capitalize_chars(ws[i].as_slice());
        push_str(&mut res, w.as_str());
        assert(seq_views(ws@).subrange(from as int, i + 1).drop_last() =~= seq_views(ws@).subrange(
            from as int,
            i as int,
        ));
        i = i + 1;
    }
    assert(seq_views(ws@).subrange(from as int, ws@.len() as int) =~= seq_views(ws@).skip(
        from as int,
    ));
    res
}

} // verus!
