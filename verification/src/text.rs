//! Character-level text handling: whitespace, trimming, splitting and matching.
//!
//! Strings are modelled by their views, sequences of `char`.
use vstd::prelude::*;

verus! {

/// The Unicode `White_Space` property (UCD PropList), which `char::is_whitespace` tests.
pub open spec fn is_white_space(c: char) -> bool {
    ||| ('\u{9}' <= c && c <= '\u{d}')
    ||| c == ' '
    ||| c == '\u{85}'
    ||| c == '\u{a0}'
    ||| c == '\u{1680}'
    ||| ('\u{2000}' <= c && c <= '\u{200a}')
    ||| c == '\u{2028}'
    ||| c == '\u{2029}'
    ||| c == '\u{202f}'
    ||| c == '\u{205f}'
    ||| c == '\u{3000}'
}

/// Whether `c` is a whitespace character.
pub fn is_whitespace(c: char) -> (r: bool)
    ensures
        r == is_white_space(c),
{
    ('\u{9}' <= c && c <= '\u{d}') || c == ' ' || c == '\u{85}' || c == '\u{a0}' || c
        == '\u{1680}' || ('\u{2000}' <= c && c <= '\u{200a}') || c == '\u{2028}' || c
        == '\u{2029}' || c == '\u{202f}' || c == '\u{205f}' || c == '\u{3000}'
}

/// Every character of `s` is ASCII.
pub open spec fn all_ascii(s: Seq<char>) -> bool {
    forall|i: int| 0 <= i < s.len() ==> (#[trigger] s[i] as u32) < 0x80
}

/// `c` with `'A'..='Z'` mapped to `'a'..='z'`.
pub open spec fn ascii_lower_char(c: char) -> char {
    if 'A' <= c && c <= 'Z' {
        ((c as u32) + 32) as char
    } else {
        c
    }
}

/// `c` with `'a'..='z'` mapped to `'A'..='Z'`.
pub open spec fn ascii_upper_char(c: char) -> char {
    if 'a' <= c && c <= 'z' {
        ((c as u32) - 32) as char
    } else {
        c
    }
}

/// `str::to_ascii_lowercase`.
pub open spec fn ascii_lowercase(s: Seq<char>) -> Seq<char> {
    s.map_values(|c: char| ascii_lower_char(c))
}

/// `str::to_ascii_uppercase`.
pub open spec fn ascii_uppercase(s: Seq<char>) -> Seq<char> {
    s.map_values(|c: char| ascii_upper_char(c))
}

/// What `str::to_lowercase` returns for text that holds a non-ASCII character: its
/// Unicode lowercase mapping.
pub uninterp spec fn lowercase(s: Seq<char>) -> Seq<char>;

/// What `str::to_lowercase` returns: ASCII text with its letters `A`–`Z` made `a`–`z`
/// (their Unicode lowercase mapping, every other ASCII character being its own), other
/// text its Unicode lowercase mapping, named.
pub open spec fn to_lower(s: Seq<char>) -> Seq<char> {
    if all_ascii(s) {
        ascii_lowercase(s)
    } else {
        lowercase(s)
    }
}

/// Calls `str::to_lowercase`. On ASCII text the contract states the result; on other
/// text it names it as a function of the characters of `s`, the Unicode case tables not
/// being restated.
#[verifier::external_body]
pub(crate) fn to_lowercase(s: &str) -> (r: String)
    ensures
        all_ascii(s@) ==> r@ == ascii_lowercase(s@),
        !all_ascii(s@) ==> r@ == lowercase(s@),
{
    s.to_lowercase()
}

/// Lowercasing ASCII text twice changes nothing more.
pub proof fn to_lower_ascii_idempotent(s: Seq<char>)
    requires
        all_ascii(s),
    ensures
        all_ascii(to_lower(s)),
        to_lower(to_lower(s)) == to_lower(s),
{
    let l = ascii_lowercase(s);
    assert forall|i: int| 0 <= i < l.len() implies (#[trigger] l[i] as u32) < 0x80 by {
        assert(l[i] == ascii_lower_char(s[i]));
    }
    assert(ascii_lowercase(l) =~= l);
}

/// ASCII text and its uppercase form lowercase alike.
pub proof fn to_lower_of_ascii_uppercase(s: Seq<char>)
    requires
        all_ascii(s),
    ensures
        all_ascii(ascii_uppercase(s)),
        to_lower(ascii_uppercase(s)) == to_lower(s),
        all_ascii(ascii_lowercase(s)),
        to_lower(ascii_lowercase(s)) == to_lower(s),
{
    let u = ascii_uppercase(s);
    assert forall|i: int| 0 <= i < u.len() implies (#[trigger] u[i] as u32) < 0x80 by {
        assert(u[i] == ascii_upper_char(s[i]));
    }
    assert(ascii_lowercase(u) =~= ascii_lowercase(s));
    to_lower_ascii_idempotent(s);
}

/// Builds a `String` from characters (`FromIterator<&char> for String`): the string
/// holds exactly these characters, in order.
#[verifier::external_body]
pub(crate) fn string_from_chars(cs: &[char]) -> (r: String)
    ensures
        r@ == cs@,
{
    cs.iter().collect()
}

/// The characters of `s`, in order.
pub fn chars_of(s: &str) -> (r: Vec<char>)
    ensures
        r@ == s@,
{
    let mut out: Vec<char> = Vec::new();
    for c in it: s.chars()
        invariant
            out@ == it.seq().take(it.index() as int),
    {
        out.push(c);
    }
    out
}

/// The characters `s[a..b]`.
pub fn sub_chars(s: &Vec<char>, a: usize, b: usize) -> (r: Vec<char>)
    requires
        a <= b <= s@.len(),
    ensures
        r@ == s@.subrange(a as int, b as int),
{
    let mut out: Vec<char> = Vec::new();
    let mut i = a;
    while i < b
        invariant
            a <= i <= b <= s@.len(),
            out@ == s@.subrange(a as int, i as int),
        decreases b - i,
    {
        out.push(s[i]);
        i = i + 1;
        assert(out@ =~= s@.subrange(a as int, i as int));
    }
    out
}

/// Appends the characters of `t` to `out`.
pub fn extend_chars(out: &mut Vec<char>, t: &Vec<char>)
    ensures
        final(out)@ == old(out)@ + t@,
{
    let ghost start = out@;
    let mut i: usize = 0;
    while i < t.len()
        invariant
            i <= t@.len(),
            out@ == start + t@.take(i as int),
        decreases t@.len() - i,
    {
        out.push(t[i]);
        i = i + 1;
        assert(out@ =~= start + t@.take(i as int));
    }
    assert(t@.take(t@.len() as int) =~= t@);
}

/// Whether two character sequences are equal.
pub fn chars_eq(a: &Vec<char>, b: &Vec<char>) -> (r: bool)
    ensures
        r == (a@ == b@),
{
    if a.len() != b.len() {
        return false;
    }
    let mut i: usize = 0;
    while i < a.len()
        invariant
            a@.len() == b@.len(),
            i <= a@.len(),
            forall|j: int| 0 <= j < i ==> a@[j] == b@[j],
        decreases a@.len() - i,
    {
        if a[i] != b[i] {
            return false;
        }
        i = i + 1;
    }
    assert(a@ =~= b@);
    true
}

/// Whether the characters `a` spell out the string `lit`.
pub fn chars_eq_str(a: &Vec<char>, lit: &str) -> (r: bool)
    ensures
        r == (a@ == lit@),
{
    let b = chars_of(lit);
    chars_eq(a, &b)
}

// ---------------------------------------------------------------- trimming

/// `s` without its leading whitespace.
pub open spec fn trim_start(s: Seq<char>) -> Seq<char>
    decreases s.len(),
{
    if s.len() > 0 && is_white_space(s[0]) {
        trim_start(s.drop_first())
    } else {
        s
    }
}

/// `s` without its trailing whitespace.
pub open spec fn trim_end(s: Seq<char>) -> Seq<char>
    decreases s.len(),
{
    if s.len() > 0 && is_white_space(s.last()) {
        trim_end(s.drop_last())
    } else {
        s
    }
}

/// `s` without leading and trailing whitespace (`str::trim`).
pub open spec fn trim(s: Seq<char>) -> Seq<char> {
    trim_end(trim_start(s))
}

proof fn lemma_trim_start(s: Seq<char>)
    ensures
        ({
            let t = trim_start(s);
            &&& t.len() <= s.len()
            &&& t == s.skip(s.len() - t.len())
            &&& forall|i: int| 0 <= i < s.len() - t.len() ==> is_white_space(#[trigger] s[i])
            &&& t.len() > 0 ==> !is_white_space(t[0])
        }),
    decreases s.len(),
{
    if s.len() > 0 && is_white_space(s[0]) {
        lemma_trim_start(s.drop_first());
        let t = trim_start(s);
        assert(s.skip(s.len() - t.len()) =~= s.drop_first().skip(s.drop_first().len() - t.len()));
        assert forall|i: int| 0 <= i < s.len() - t.len() implies is_white_space(#[trigger] s[i]) by {
            if i > 0 {
                assert(s[i] == s.drop_first()[i - 1]);
            }
        }
    } else {
        assert(s.skip(0) =~= s);
    }
}

proof fn lemma_trim_end(s: Seq<char>)
    ensures
        ({
            let t = trim_end(s);
            &&& t.len() <= s.len()
            &&& t == s.take(t.len() as int)
            &&& forall|i: int| t.len() <= i < s.len() ==> is_white_space(#[trigger] s[i])
            &&& t.len() > 0 ==> !is_white_space(t.last())
        }),
    decreases s.len(),
{
    if s.len() > 0 && is_white_space(s.last()) {
        lemma_trim_end(s.drop_last());
        let t = trim_end(s);
        assert(s.take(t.len() as int) =~= s.drop_last().take(t.len() as int));
        assert forall|i: int| t.len() <= i < s.len() implies is_white_space(#[trigger] s[i]) by {
            if i < s.len() - 1 {
                assert(s[i] == s.drop_last()[i]);
            }
        }
    } else {
        assert(s.take(s.len() as int) =~= s);
    }
}

/// Trimming takes the part of `s` between its leading and its trailing whitespace: what
/// is cut off is whitespace, and what is left neither starts nor ends with whitespace.
pub proof fn trim_cuts_outer_whitespace(s: Seq<char>)
    ensures
        exists|a: int, b: int|
            0 <= a <= b <= s.len() && trim(s) == s.subrange(a, b) && (forall|i: int|
                0 <= i < a ==> is_white_space(#[trigger] s[i])) && (forall|i: int|
                b <= i < s.len() ==> is_white_space(#[trigger] s[i])),
        trim(s).len() > 0 ==> !is_white_space(trim(s)[0]) && !is_white_space(trim(s).last()),
{
    lemma_trim_start(s);
    let u = trim_start(s);
    lemma_trim_end(u);
    let t = trim(s);
    let a = s.len() - u.len();
    let b = a + t.len();
    assert(t =~= s.subrange(a, b));
    assert forall|i: int| b <= i < s.len() implies is_white_space(#[trigger] s[i]) by {
        assert(s[i] == u[i - a]);
    }
    assert(t.len() > 0 ==> t[0] == u[0]);
}

/// `str::trim` on characters.
pub fn trim_chars(s: &Vec<char>) -> (r: Vec<char>)
    ensures
        r@ == trim(s@),
{
    let n = s.len();
    let mut a: usize = 0;
    assert(s@.subrange(0, n as int) =~= s@);
    while a < n && is_whitespace(s[a])
        invariant
            n == s@.len(),
            a <= n,
            trim_start(s@) == trim_start(s@.subrange(a as int, n as int)),
        decreases n - a,
    {
        assert(s@.subrange(a as int, n as int).drop_first() =~= s@.subrange(a + 1, n as int));
        a = a + 1;
    }
    assert(trim_start(s@) == s@.subrange(a as int, n as int));
    let mut b: usize = n;
    while b > a && is_whitespace(s[b - 1])
        invariant
            n == s@.len(),
            a <= b <= n,
            trim(s@) == trim_end(s@.subrange(a as int, b as int)),
        decreases b - a,
    {
        assert(s@.subrange(a as int, b as int).drop_last() =~= s@.subrange(a as int, b - 1));
        b = b - 1;
    }
    sub_chars(s, a, b)
}

/// `str::trim`, giving a `String`.
pub fn trim_str(s: &str) -> (r: String)
    ensures
        r@ == trim(s@),
{
    let cs = chars_of(s);
    let t = trim_chars(&cs);
    string_from_chars(t.as_slice())
}


// ---------------------------------------------------------------- prefixes, substrings

/// `s` begins with `p`.
pub open spec fn starts_with(s: Seq<char>, p: Seq<char>) -> bool {
    p.len() <= s.len() && s.subrange(0, p.len() as int) == p
}

/// `p` occurs in `s` at position `i`.
pub open spec fn occurs_at(s: Seq<char>, p: Seq<char>, i: int) -> bool {
    0 <= i && i + p.len() <= s.len() && s.subrange(i, i + p.len()) == p
}

/// `p` occurs somewhere in `s` (`str::contains`).
pub open spec fn contains(s: Seq<char>, p: Seq<char>) -> bool {
    exists|i: int| #[trigger] occurs_at(s, p, i)
}

/// Whether `p` occurs in `s` at position `i`.
pub fn occurs_at_exec(s: &Vec<char>, p: &Vec<char>, i: usize) -> (r: bool)
    ensures
        r == occurs_at(s@, p@, i as int),
{
    if i > s.len() || p.len() > s.len() - i {
        return false;
    }
    let n = s.len();
    let mut k: usize = 0;
    while k < p.len()
        invariant
            n == s@.len(),
            i + p@.len() <= s@.len(),
            k <= p@.len(),
            forall|j: int| 0 <= j < k ==> s@[i + j] == p@[j],
        decreases p@.len() - k,
    {
        assert(i + k < s@.len());
        if s[i + k] != p[k] {
            assert(s@.subrange(i as int, i + p@.len())[k as int] != p@[k as int]);
            return false;
        }
        k = k + 1;
    }
    assert(s@.subrange(i as int, i + p@.len()) =~= p@);
    true
}

/// Whether `s` begins with `p`.
pub fn starts_with_exec(s: &Vec<char>, p: &Vec<char>) -> (r: bool)
    ensures
        r == starts_with(s@, p@),
{
    occurs_at_exec(s, p, 0)
}

/// Whether `p` occurs in `s`.
pub fn contains_exec(s: &Vec<char>, p: &Vec<char>) -> (r: bool)
    ensures
        r == contains(s@, p@),
{
    if p.len() > s.len() {
        assert forall|i: int| !#[trigger] occurs_at(s@, p@, i) by {}
        return false;
    }
    if p.len() == 0 {
        assert(s@.subrange(0, 0) =~= p@);
        assert(occurs_at(s@, p@, 0));
        return true;
    }
    let end = s.len() - p.len() + 1;
    let mut i: usize = 0;
    while i < end
        invariant
            end + p@.len() == s@.len() + 1,
            i <= end,
            forall|j: int| 0 <= j < i ==> !#[trigger] occurs_at(s@, p@, j),
        decreases end - i,
    {
        if occurs_at_exec(s, p, i) {
            return true;
        }
        i = i + 1;
    }
    assert forall|j: int| !#[trigger] occurs_at(s@, p@, j) by {}
    false
}

// ---------------------------------------------------------------- ASCII case

/// The code of `c` after `char::to_ascii_lowercase`: `'A'..='Z'` map to `'a'..='z'`,
/// every other character is unchanged.
pub open spec fn ascii_lower_code(c: char) -> u32 {
    if 'A' <= c && c <= 'Z' {
        (c as u32 + 32) as u32
    } else {
        c as u32
    }
}

/// `str::eq_ignore_ascii_case`.
pub open spec fn eq_ignore_ascii_case(a: Seq<char>, b: Seq<char>) -> bool {
    a.len() == b.len() && forall|i: int|
        0 <= i < a.len() ==> #[trigger] ascii_lower_code(a[i]) == ascii_lower_code(b[i])
}

fn ascii_lower_code_exec(c: char) -> (r: u32)
    ensures
        r == ascii_lower_code(c),
{
    if 'A' <= c && c <= 'Z' {
        c as u32 + 32
    } else {
        c as u32
    }
}

/// Whether `a` and `b` are equal up to ASCII case.
pub fn eq_ignore_ascii_case_exec(a: &Vec<char>, b: &Vec<char>) -> (r: bool)
    ensures
        r == eq_ignore_ascii_case(a@, b@),
{
    if a.len() != b.len() {
        return false;
    }
    let mut i: usize = 0;
    while i < a.len()
        invariant
            a@.len() == b@.len(),
            i <= a@.len(),
            forall|j: int| 0 <= j < i ==> #[trigger] ascii_lower_code(a@[j]) == ascii_lower_code(b@[j]),
        decreases a@.len() - i,
    {
        if ascii_lower_code_exec(a[i]) != ascii_lower_code_exec(b[i]) {
            return false;
        }
        i = i + 1;
    }
    true
}

// ---------------------------------------------------------------- splitting once

/// `str::split_once(c)`: the text before the first `c` and the text after it.
pub open spec fn split_once(s: Seq<char>, c: char) -> Option<(Seq<char>, Seq<char>)> {
    match s.index_of_first(c) {
        Some(i) => Some((s.take(i), s.skip(i + 1))),
        None => None,
    }
}

/// `split_once` cuts `s` at its first `c`: none when `s` holds no `c`; otherwise the text
/// before it, which holds no `c`, and the text after it.
pub proof fn split_once_at_first(s: Seq<char>, c: char)
    ensures
        split_once(s, c) is None <==> forall|i: int| 0 <= i < s.len() ==> #[trigger] s[i] != c,
        split_once(s, c) matches Some((a, b)) ==> s == a + seq![c] + b && forall|i: int|
            0 <= i < a.len() ==> #[trigger] a[i] != c,
{
    match s.index_of_first(c) {
        Some(i) => {
            s.index_of_first_ensures(c);
            assert(s =~= s.take(i) + seq![c] + s.skip(i + 1));
            assert(s.contains(c));
        },
        None => {
            s.index_of_first_ensures(c);
            assert forall|i: int| 0 <= i < s.len() implies #[trigger] s[i] != c by {
                if s[i] == c {
                    assert(s.contains(c));
                }
            }
        },
    }
}

/// Splits `s` at its first `c`.
pub fn split_once_exec(s: &Vec<char>, c: char) -> (r: Option<(Vec<char>, Vec<char>)>)
    ensures
        match (r, split_once(s@, c)) {
            (Some((a, b)), Some((x, y))) => a@ == x && b@ == y,
            (None, None) => true,
            _ => false,
        },
{
    proof {
        s@.index_of_first_ensures(c);
    }
    let mut i: usize = 0;
    while i < s.len()
        invariant
            i <= s@.len(),
            forall|j: int| 0 <= j < i ==> s@[j] != c,
        decreases s@.len() - i,
    {
        if s[i] == c {
            let a = sub_chars(s, 0, i);
            let b = sub_chars(s, i + 1, s.len());
            assert(s@.contains(c));
            proof {
                s@.index_of_first_ensures(c);
            }
            let ghost k = s@.index_of_first(c).unwrap();
            assert(k == i) by {
                if k < i {
                    assert(s@[k] != c);
                } else if k > i {
                    assert(s@[i as int] != c);
                }
            }
            assert(a@ =~= s@.take(i as int));
            assert(b@ =~= s@.skip(i + 1));
            return Some((a, b));
        }
        i = i + 1;
    }
    assert(!s@.contains(c));
    None
}


// ---------------------------------------------------------------- splitting into pieces

/// The texts held by a sequence of character vectors.
pub open spec fn char_views(v: Seq<Vec<char>>) -> Seq<Seq<char>> {
    v.map_values(|w: Vec<char>| w@)
}

/// Reading one character while splitting at whitespace: the finished words and the
/// word being read.
pub open spec fn ws_step(acc: (Seq<Seq<char>>, Seq<char>), c: char) -> (Seq<Seq<char>>, Seq<char>) {
    if is_white_space(c) {
        if acc.1.len() > 0 {
            (acc.0.push(acc.1), Seq::empty())
        } else {
            (acc.0, Seq::empty())
        }
    } else {
        (acc.0, acc.1.push(c))
    }
}

/// The state after reading all of `s` while splitting at whitespace.
pub open spec fn ws_scan(s: Seq<char>) -> (Seq<Seq<char>>, Seq<char>)
    decreases s.len(),
{
    if s.len() == 0 {
        (Seq::empty(), Seq::empty())
    } else {
        ws_step(ws_scan(s.drop_last()), s.last())
    }
}

/// `str::split_whitespace`: the maximal runs of non-whitespace characters, in order.
pub open spec fn split_whitespace(s: Seq<char>) -> Seq<Seq<char>> {
    let acc = ws_scan(s);
    if acc.1.len() > 0 {
        acc.0.push(acc.1)
    } else {
        acc.0
    }
}

/// Reading one character while splitting at `sep`.
pub open spec fn sep_step(acc: (Seq<Seq<char>>, Seq<char>), c: char, sep: char) -> (
    Seq<Seq<char>>,
    Seq<char>,
) {
    if c == sep {
        (acc.0.push(acc.1), Seq::empty())
    } else {
        (acc.0, acc.1.push(c))
    }
}

/// The state after reading all of `s` while splitting at `sep`.
pub open spec fn sep_scan(s: Seq<char>, sep: char) -> (Seq<Seq<char>>, Seq<char>)
    decreases s.len(),
{
    if s.len() == 0 {
        (Seq::empty(), Seq::empty())
    } else {
        sep_step(sep_scan(s.drop_last(), sep), s.last(), sep)
    }
}

/// `str::split(sep)`: the pieces between the separators, empty ones included.
pub open spec fn split_char(s: Seq<char>, sep: char) -> Seq<Seq<char>> {
    let acc = sep_scan(s, sep);
    acc.0.push(acc.1)
}

/// The last piece of `str::split(sep)` is the end of `s` after its last `sep`, or all
/// of `s` when it holds none: an end of `s` without `sep`, preceded by `sep` unless it is
/// all of `s`.
pub proof fn split_char_last_piece(s: Seq<char>, sep: char)
    ensures
        ({
            let t = split_char(s, sep).last();
            &&& t.len() <= s.len()
            &&& t == s.skip(s.len() - t.len())
            &&& forall|i: int| 0 <= i < t.len() ==> #[trigger] t[i] != sep
            &&& (t.len() == s.len() || s[s.len() - t.len() - 1] == sep)
        }),
    decreases s.len(),
{
    if s.len() > 0 {
        split_char_last_piece(s.drop_last(), sep);
        let p = s.drop_last();
        let tp = sep_scan(p, sep).1;
        assert(split_char(p, sep).last() == tp);
        let t = split_char(s, sep).last();
        assert(t == sep_scan(s, sep).1);
        if s.last() == sep {
            assert(t.len() == 0);
            assert(s.skip(s.len() as int) =~= t);
        } else {
            assert(t == tp.push(s.last()));
            assert(s.skip(s.len() - t.len()) =~= p.skip(p.len() - tp.len()).push(s.last()));
            if tp.len() < p.len() {
                assert(s[s.len() - t.len() - 1] == p[p.len() - tp.len() - 1]);
            }
        }
    } else {
        assert(s.skip(0) =~= split_char(s, sep).last());
    }
}

/// A line without the `'\r'` of a `"\r\n"` ending.
pub open spec fn strip_cr(l: Seq<char>) -> Seq<char> {
    if l.len() > 0 && l.last() == '\r' {
        l.drop_last()
    } else {
        l
    }
}

/// Reading one character while splitting into lines.
pub open spec fn line_step(acc: (Seq<Seq<char>>, Seq<char>), c: char) -> (Seq<Seq<char>>, Seq<char>) {
    if c == '\n' {
        (acc.0.push(strip_cr(acc.1)), Seq::empty())
    } else {
        (acc.0, acc.1.push(c))
    }
}

/// The state after reading all of `s` while splitting into lines.
pub open spec fn line_scan(s: Seq<char>) -> (Seq<Seq<char>>, Seq<char>)
    decreases s.len(),
{
    if s.len() == 0 {
        (Seq::empty(), Seq::empty())
    } else {
        line_step(line_scan(s.drop_last()), s.last())
    }
}

/// `str::lines`: the text split at `"\n"` and `"\r\n"`, the last ending optional.
pub open spec fn lines(s: Seq<char>) -> Seq<Seq<char>> {
    let acc = line_scan(s);
    if acc.1.len() > 0 {
        acc.0.push(acc.1)
    } else {
        acc.0
    }
}

/// The pieces joined, with `sep` between neighbours.
pub open spec fn join(parts: Seq<Seq<char>>, sep: Seq<char>) -> Seq<char>
    decreases parts.len(),
{
    if parts.len() == 0 {
        Seq::empty()
    } else if parts.len() == 1 {
        parts[0]
    } else {
        join(parts.drop_last(), sep) + sep + parts.last()
    }
}

/// Splits `s` into its whitespace-separated words.
pub fn split_whitespace_exec(s: &Vec<char>) -> (r: Vec<Vec<char>>)
    ensures
        char_views(r@) == split_whitespace(s@),
{
    let mut done: Vec<Vec<char>> = Vec::new();
    let mut cur: Vec<char> = Vec::new();
    let mut i: usize = 0;
    assert(s@.take(0) =~= Seq::<char>::empty());
    assert(char_views(done@) =~= Seq::<Seq<char>>::empty());
    while i < s.len()
        invariant
            i <= s@.len(),
            (char_views(done@), cur@) == ws_scan(s@.take(i as int)),
        decreases s@.len() - i,
    {
        let c = s[i];
        let ghost before = char_views(done@);
        assert(s@.take(i + 1).drop_last() =~= s@.take(i as int));
        if is_whitespace(c) {
            if cur.len() > 0 {
                let ghost w = cur@;
                done.push(cur);
                cur = Vec::new();
                assert(char_views(done@) =~= before.push(w));
            } else {
                cur = Vec::new();
            }
        } else {
            cur.push(c);
        }
        i = i + 1;
    }
    assert(s@.take(s@.len() as int) =~= s@);
    if cur.len() > 0 {
        let ghost before = char_views(done@);
        let ghost w = cur@;
        done.push(cur);
        assert(char_views(done@) =~= before.push(w));
    }
    done
}

/// Splits `s` at every `sep`.
pub fn split_char_exec(s: &Vec<char>, sep: char) -> (r: Vec<Vec<char>>)
    ensures
        char_views(r@) == split_char(s@, sep),
{
    let mut done: Vec<Vec<char>> = Vec::new();
    let mut cur: Vec<char> = Vec::new();
    let mut i: usize = 0;
    assert(s@.take(0) =~= Seq::<char>::empty());
    assert(char_views(done@) =~= Seq::<Seq<char>>::empty());
    while i < s.len()
        invariant
            i <= s@.len(),
            (char_views(done@), cur@) == sep_scan(s@.take(i as int), sep),
        decreases s@.len() - i,
    {
        let c = s[i];
        let ghost before = char_views(done@);
        assert(s@.take(i + 1).drop_last() =~= s@.take(i as int));
        if c == sep {
            let ghost w = cur@;
            done.push(cur);
            cur = Vec::new();
            assert(char_views(done@) =~= before.push(w));
        } else {
            cur.push(c);
        }
        i = i + 1;
    }
    assert(s@.take(s@.len() as int) =~= s@);
    let ghost before = char_views(done@);
    let ghost w = cur@;
    done.push(cur);
    assert(char_views(done@) =~= before.push(w));
    done
}

/// Splits `s` into lines.
pub fn lines_exec(s: &Vec<char>) -> (r: Vec<Vec<char>>)
    ensures
        char_views(r@) == lines(s@),
{
    let mut done: Vec<Vec<char>> = Vec::new();
    let mut cur: Vec<char> = Vec::new();
    let mut i: usize = 0;
    assert(s@.take(0) =~= Seq::<char>::empty());
    assert(char_views(done@) =~= Seq::<Seq<char>>::empty());
    while i < s.len()
        invariant
            i <= s@.len(),
            (char_views(done@), cur@) == line_scan(s@.take(i as int)),
        decreases s@.len() - i,
    {
        let c = s[i];
        let ghost before = char_views(done@);
        assert(s@.take(i + 1).drop_last() =~= s@.take(i as int));
        if c == '\n' {
            let n = cur.len();
            if n > 0 && cur[n - 1] == '\r' {
                cur.pop();
            }
            let ghost w = cur@;
            done.push(cur);
            cur = Vec::new();
            assert(char_views(done@) =~= before.push(w));
        } else {
            cur.push(c);
        }
        i = i + 1;
    }
    assert(s@.take(s@.len() as int) =~= s@);
    if cur.len() > 0 {
        let ghost before = char_views(done@);
        let ghost w = cur@;
        done.push(cur);
        assert(char_views(done@) =~= before.push(w));
    }
    done
}

/// Joins `parts`, with `sep` between neighbours.
pub fn join_exec(parts: &Vec<Vec<char>>, sep: &Vec<char>) -> (r: Vec<char>)
    ensures
        r@ == join(char_views(parts@), sep@),
{
    let mut out: Vec<char> = Vec::new();
    let mut i: usize = 0;
    while i < parts.len()
        invariant
            i <= parts@.len(),
            out@ == join(char_views(parts@).take(i as int), sep@),
        decreases parts@.len() - i,
    {
        let ghost pv = char_views(parts@);
        assert(pv.take(i + 1).drop_last() =~= pv.take(i as int));
        if i > 0 {
            extend_chars(&mut out, sep);
        }
        extend_chars(&mut out, &parts[i]);
        i = i + 1;
        assert(pv.take(i as int).last() == pv[i - 1]);
        assert(i == 1 ==> pv.take(i as int)[0] == pv[0]);
    }
    assert(char_views(parts@).take(parts@.len() as int) =~= char_views(parts@));
    out
}


// ---------------------------------------------------------------- ordering

/// `a` comes strictly before `b` in lexicographic order of code points (the order of
/// `str`, whose UTF-8 bytes sort the same way).
pub open spec fn chars_lt(a: Seq<char>, b: Seq<char>) -> bool
    decreases a.len(),
{
    if b.len() == 0 {
        false
    } else if a.len() == 0 {
        true
    } else if a[0] != b[0] {
        a[0] < b[0]
    } else {
        chars_lt(a.drop_first(), b.drop_first())
    }
}

/// Whether `a` comes strictly before `b`.
pub fn chars_lt_exec(a: &Vec<char>, b: &Vec<char>) -> (r: bool)
    ensures
        r == chars_lt(a@, b@),
{
    let mut i: usize = 0;
    assert(a@.skip(0) =~= a@);
    assert(b@.skip(0) =~= b@);
    while i < a.len() && i < b.len()
        invariant
            i <= a@.len(),
            i <= b@.len(),
            chars_lt(a@, b@) == chars_lt(a@.skip(i as int), b@.skip(i as int)),
        decreases a@.len() - i,
    {
        if a[i] != b[i] {
            return a[i] < b[i];
        }
        assert(a@.skip(i as int).drop_first() =~= a@.skip(i + 1));
        assert(b@.skip(i as int).drop_first() =~= b@.skip(i + 1));
        i = i + 1;
    }
    i < b.len()
}


/// The order of `chars_lt` is transitive.
pub proof fn chars_lt_transitive(a: Seq<char>, b: Seq<char>, c: Seq<char>)
    requires
        chars_lt(a, b),
        chars_lt(b, c),
    ensures
        chars_lt(a, c),
    decreases a.len(),
{
    if a.len() > 0 && b.len() > 0 && c.len() > 0 && a[0] == b[0] && b[0] == c[0] {
        chars_lt_transitive(a.drop_first(), b.drop_first(), c.drop_first());
    }
}

/// No text comes before itself.
pub proof fn chars_lt_irreflexive(a: Seq<char>)
    ensures
        !chars_lt(a, a),
    decreases a.len(),
{
    if a.len() > 0 {
        chars_lt_irreflexive(a.drop_first());
    }
}


/// `a` and `b` first differ at `k`, where `a` has the smaller character.
pub open spec fn differs_lower_at(a: Seq<char>, b: Seq<char>, k: int) -> bool {
    0 <= k < a.len() && k < b.len() && a.take(k) == b.take(k) && a[k] < b[k]
}

/// `chars_lt` is the lexicographic order that `str`'s `Ord` gives (UTF-8 bytes compare as
/// the characters they encode): `a` comes before `b` when, at the first position where
/// they differ, `a` has the smaller character, or when `a` is a proper prefix of `b`.
pub proof fn chars_lt_is_lexicographic(a: Seq<char>, b: Seq<char>)
    ensures
        chars_lt(a, b) <==> (exists|k: int| #[trigger] differs_lower_at(a, b, k)) || (a.len() < b.len()
            && b.take(a.len() as int) == a),
    decreases a.len(),
{
    if b.len() == 0 {
        assert forall|k: int| !#[trigger] differs_lower_at(a, b, k) by {}
    } else if a.len() == 0 {
        assert(b.take(0) =~= a);
    } else if a[0] != b[0] {
        if a[0] < b[0] {
            assert(a.take(0) =~= b.take(0));
            assert(differs_lower_at(a, b, 0));
        } else {
            assert forall|k: int| !#[trigger] differs_lower_at(a, b, k) by {
                if 0 < k < a.len() && k < b.len() && a.take(k) == b.take(k) {
                    assert(a.take(k)[0] == b.take(k)[0]);
                }
            }
            if a.len() < b.len() && b.take(a.len() as int) == a {
                assert(b.take(a.len() as int)[0] == a[0]);
            }
        }
    } else {
        let a2 = a.drop_first();
        let b2 = b.drop_first();
        chars_lt_is_lexicographic(a2, b2);
        if exists|k: int| #[trigger] differs_lower_at(a2, b2, k) {
            let k = choose|k: int| #[trigger] differs_lower_at(a2, b2, k);
            assert(a.take(k + 1) =~= seq![a[0]] + a2.take(k));
            assert(b.take(k + 1) =~= seq![b[0]] + b2.take(k));
            assert(differs_lower_at(a, b, k + 1));
        }
        if exists|k: int| #[trigger] differs_lower_at(a, b, k) {
            let k = choose|k: int| #[trigger] differs_lower_at(a, b, k);
            assert(k != 0);
            assert(a2.take(k - 1) =~= a.take(k).drop_first());
            assert(b2.take(k - 1) =~= b.take(k).drop_first());
            assert(differs_lower_at(a2, b2, k - 1));
        }
        if a.len() < b.len() && b.take(a.len() as int) == a {
            assert(b2.take(a2.len() as int) =~= b.take(a.len() as int).drop_first());
        }
        if a2.len() < b2.len() && b2.take(a2.len() as int) == a2 {
            assert(b.take(a.len() as int) =~= seq![b[0]] + b2.take(a2.len() as int));
            assert(a =~= seq![a[0]] + a2);
        }
    }
}

// ---------------------------------------------------------------- laws of splitting

/// A word: non-empty, without whitespace.
pub open spec fn is_word(w: Seq<char>) -> bool {
    w.len() > 0 && forall|i: int| 0 <= i < w.len() ==> !is_white_space(#[trigger] w[i])
}

/// The state after reading `s` while splitting at whitespace, from state `acc`.
pub open spec fn ws_scan_from(acc: (Seq<Seq<char>>, Seq<char>), s: Seq<char>) -> (Seq<Seq<char>>, Seq<char>)
    decreases s.len(),
{
    if s.len() == 0 {
        acc
    } else {
        ws_step(ws_scan_from(acc, s.drop_last()), s.last())
    }
}

proof fn lemma_ws_scan_is_from_start(s: Seq<char>)
    ensures
        ws_scan(s) == ws_scan_from((Seq::empty(), Seq::empty()), s),
    decreases s.len(),
{
    if s.len() > 0 {
        lemma_ws_scan_is_from_start(s.drop_last());
    }
}

proof fn lemma_ws_scan_from_append(acc: (Seq<Seq<char>>, Seq<char>), a: Seq<char>, b: Seq<char>)
    ensures
        ws_scan_from(acc, a + b) == ws_scan_from(ws_scan_from(acc, a), b),
    decreases b.len(),
{
    if b.len() == 0 {
        assert(a + b =~= a);
    } else {
        lemma_ws_scan_from_append(acc, a, b.drop_last());
        assert((a + b).drop_last() =~= a + b.drop_last());
        assert((a + b).last() == b.last());
    }
}

proof fn lemma_ws_scan_from_word(d: Seq<Seq<char>>, c: Seq<char>, w: Seq<char>)
    requires
        forall|i: int| 0 <= i < w.len() ==> !is_white_space(#[trigger] w[i]),
    ensures
        ws_scan_from((d, c), w) == (d, c + w),
    decreases w.len(),
{
    if w.len() == 0 {
        assert(c + w =~= c);
    } else {
        lemma_ws_scan_from_word(d, c, w.drop_last());
        assert(!is_white_space(w[w.len() - 1]));
        assert((c + w.drop_last()).push(w.last()) =~= c + w);
    }
}

proof fn lemma_ws_scan_words(s: Seq<char>)
    ensures
        forall|i: int| 0 <= i < ws_scan(s).0.len() ==> is_word(#[trigger] ws_scan(s).0[i]),
        forall|i: int| 0 <= i < ws_scan(s).1.len() ==> !is_white_space(#[trigger] ws_scan(s).1[i]),
    decreases s.len(),
{
    if s.len() > 0 {
        lemma_ws_scan_words(s.drop_last());
        let acc = ws_scan(s.drop_last());
        assert forall|i: int| 0 <= i < ws_scan(s).0.len() implies is_word(#[trigger] ws_scan(s).0[i]) by {
            if i < acc.0.len() {
                assert(ws_scan(s).0[i] == acc.0[i]);
            }
        }
        assert forall|i: int| 0 <= i < ws_scan(s).1.len() implies !is_white_space(#[trigger] ws_scan(s).1[i]) by {
            if i < acc.1.len() {
                assert(ws_scan(s).1[i] == acc.1[i]);
            }
        }
    }
}

/// The pieces `split_whitespace` gives are words.
pub proof fn split_whitespace_gives_words(s: Seq<char>)
    ensures
        forall|i: int| 0 <= i < split_whitespace(s).len() ==> is_word(#[trigger] split_whitespace(s)[i]),
{
    lemma_ws_scan_words(s);
    let acc = ws_scan(s);
    assert forall|i: int| 0 <= i < split_whitespace(s).len() implies is_word(#[trigger] split_whitespace(s)[i]) by {
        if i < acc.0.len() {
            assert(split_whitespace(s)[i] == acc.0[i]);
        }
    }
}

proof fn lemma_scan_joined_words(ws: Seq<Seq<char>>)
    requires
        ws.len() > 0,
        forall|i: int| 0 <= i < ws.len() ==> is_word(#[trigger] ws[i]),
    ensures
        ws_scan(join(ws, seq![' '])) == (ws.drop_last(), ws.last()),
    decreases ws.len(),
{
    let e: Seq<Seq<char>> = Seq::empty();
    let ec: Seq<char> = Seq::empty();
    if ws.len() == 1 {
        lemma_ws_scan_is_from_start(ws[0]);
        lemma_ws_scan_from_word(e, ec, ws[0]);
        assert(ec + ws[0] =~= ws[0]);
        assert(ws.drop_last() =~= e);
    } else {
        let w2 = ws.drop_last();
        assert forall|i: int| 0 <= i < w2.len() implies is_word(#[trigger] w2[i]) by {
            assert(w2[i] == ws[i]);
        }
        lemma_scan_joined_words(w2);
        let head = join(w2, seq![' ']);
        let last = ws.last();
        assert(join(ws, seq![' ']) == head + seq![' '] + last);
        lemma_ws_scan_is_from_start(head + seq![' '] + last);
        lemma_ws_scan_is_from_start(head);
        lemma_ws_scan_from_append((e, ec), head + seq![' '], last);
        lemma_ws_scan_from_append((e, ec), head, seq![' ']);
        let after_head = ws_scan_from((e, ec), head);
        assert(after_head == (w2.drop_last(), w2.last()));
        assert(is_word(w2.last()));
        assert(seq![' '].drop_last() =~= ec);
        assert(ws_scan_from(after_head, ec) == after_head);
        assert(seq![' '].last() == ' ');
        assert(is_white_space(' '));
        assert(ws_scan_from(after_head, seq![' ']) == ws_step(after_head, ' '));
        assert(ws_scan_from(after_head, seq![' ']) == (w2.drop_last().push(w2.last()), ec));
        assert(w2.drop_last().push(w2.last()) =~= w2);
        assert(is_word(last));
        lemma_ws_scan_from_word(w2, ec, last);
        assert(ec + last =~= last);
    }
}

/// Splitting words joined by single spaces gives the words back.
pub proof fn split_whitespace_of_joined_words(ws: Seq<Seq<char>>)
    requires
        forall|i: int| 0 <= i < ws.len() ==> is_word(#[trigger] ws[i]),
    ensures
        split_whitespace(join(ws, seq![' '])) == ws,
{
    if ws.len() == 0 {
        assert(split_whitespace(join(ws, seq![' '])) =~= ws);
    } else {
        lemma_scan_joined_words(ws);
        assert(is_word(ws.last()));
        assert(ws.drop_last().push(ws.last()) =~= ws);
    }
}

} // verus!
