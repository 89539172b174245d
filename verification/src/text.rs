//! Text primitives over character sequences.
use vstd::prelude::*;

verus! {

/// Specification of `String::push`: the character is appended and nothing else changes.
pub assume_specification[ String::push ](s: &mut String, c: char)
    ensures
        final(s)@ == old(s)@.push(c),
;

/// The upper-case form of a text that holds a character outside ASCII, as the Unicode tables
/// give it.
pub uninterp spec fn unicode_upper(s: Seq<char>) -> Seq<char>;

/// `str::to_uppercase`. On ASCII text it is the ASCII mapping, letter by letter; on any other
/// text the result is a function of the text that is named and not described further.
#[verifier::external_body]
pub(crate) fn to_upper(s: &str) -> (r: String)
    ensures
        r@ == (if ascii_text(s@) {
            ascii_upper(s@)
        } else {
            unicode_upper(s@)
        }),
{
    s.to_uppercase()
}

/// Upper-case form used when two texts are matched without regard to case.
pub open spec fn upper(s: Seq<char>) -> Seq<char> {
    if ascii_text(s) {
        ascii_upper(s)
    } else {
        unicode_upper(s)
    }
}

/// Every character is in the ASCII range.
pub open spec fn ascii_text(s: Seq<char>) -> bool {
    forall|i: int| 0 <= i < s.len() ==> #[trigger] s[i] <= '\u{7f}'
}

pub open spec fn is_ascii_lower(c: char) -> bool {
    'a' <= c <= 'z'
}

pub open spec fn is_ascii_upper(c: char) -> bool {
    'A' <= c <= 'Z'
}

pub open spec fn is_ascii_alpha(c: char) -> bool {
    is_ascii_lower(c) || is_ascii_upper(c)
}

pub open spec fn is_ascii_digit(c: char) -> bool {
    '0' <= c <= '9'
}

pub open spec fn is_ascii_alnum(c: char) -> bool {
    is_ascii_alpha(c) || is_ascii_digit(c)
}

pub open spec fn ascii_upper_char(c: char) -> char {
    if is_ascii_lower(c) {
        (c as int - 32) as char
    } else {
        c
    }
}

pub open spec fn ascii_lower_char(c: char) -> char {
    if is_ascii_upper(c) {
        (c as int + 32) as char
    } else {
        c
    }
}

/// ASCII letters in upper case, every other character as it is.
pub open spec fn ascii_upper(s: Seq<char>) -> Seq<char> {
    s.map_values(|c: char| ascii_upper_char(c))
}

/// ASCII letters in lower case, every other character as it is.
pub open spec fn ascii_lower(s: Seq<char>) -> Seq<char> {
    s.map_values(|c: char| ascii_lower_char(c))
}

/// The characters with the Unicode property `White_Space`.
pub open spec fn is_space(c: char) -> bool {
    ||| '\u{9}' <= c <= '\u{d}'
    ||| c == ' '
    ||| c == '\u{85}'
    ||| c == '\u{a0}'
    ||| c == '\u{1680}'
    ||| '\u{2000}' <= c <= '\u{200a}'
    ||| c == '\u{2028}'
    ||| c == '\u{2029}'
    ||| c == '\u{202f}'
    ||| c == '\u{205f}'
    ||| c == '\u{3000}'
}

/// `s` without its leading white space.
pub open spec fn trimmed_start(s: Seq<char>) -> Seq<char>
    decreases s.len(),
{
    if s.len() > 0 && is_space(s[0]) {
        trimmed_start(s.skip(1))
    } else {
        s
    }
}

/// `s` without its trailing white space.
pub open spec fn trimmed_end(s: Seq<char>) -> Seq<char>
    decreases s.len(),
{
    if s.len() > 0 && is_space(s.last()) {
        trimmed_end(s.drop_last())
    } else {
        s
    }
}

/// `s` without leading and trailing white space.
pub open spec fn trimmed(s: Seq<char>) -> Seq<char> {
    trimmed_end(trimmed_start(s))
}

/// The view of an optional text.
pub open spec fn text_of(o: Option<String>) -> Option<Seq<char>> {
    match o {
        Some(s) => Some(s@),
        None => None,
    }
}

/// The views of a list of texts.
pub open spec fn texts_of(v: Seq<String>) -> Seq<Seq<char>> {
    v.map_values(|s: String| s@)
}

/// `s` with every occurrence of `pat`, found from the left without overlap, replaced by `to`.
pub open spec fn replaced(s: Seq<char>, pat: Seq<char>, to: Seq<char>) -> Seq<char>
    decreases s.len(),
{
    if pat.len() == 0 || s.len() < pat.len() {
        s
    } else if s.take(pat.len() as int) == pat {
        to + replaced(s.skip(pat.len() as int), pat, to)
    } else {
        seq![s[0]] + replaced(s.skip(1), pat, to)
    }
}

/// The texts of `v` without repetition, in the order in which they first appear.
pub open spec fn distinct(v: Seq<Seq<char>>) -> Seq<Seq<char>>
    decreases v.len(),
{
    if v.len() == 0 {
        Seq::empty()
    } else {
        let rest = distinct(v.drop_last());
        if rest.contains(v.last()) {
            rest
        } else {
            rest.push(v.last())
        }
    }
}

/// `distinct` keeps exactly the texts that occur, each once.
pub proof fn distinct_keeps_each_once(v: Seq<Seq<char>>)
    ensures
        distinct(v).no_duplicates(),
        forall|t: Seq<char>| distinct(v).contains(t) <==> v.contains(t),
        distinct(v).len() <= v.len(),
    decreases v.len(),
{
    if v.len() > 0 {
        let less = v.drop_last();
        let rest = distinct(less);
        distinct_keeps_each_once(less);
        assert forall|t: Seq<char>| distinct(v).contains(t) <==> v.contains(t) by {
            assert(v == less.push(v.last()));
            if v.contains(t) && t != v.last() {
                let i = choose|i: int| 0 <= i < v.len() && v[i] == t;
                assert(less[i] == t);
                assert(less.contains(t));
                assert(rest.contains(t));
            }
            if less.contains(t) {
                let i = choose|i: int| 0 <= i < less.len() && less[i] == t;
                assert(v[i] == t);
            }
            if rest.contains(t) {
                let i = choose|i: int| 0 <= i < rest.len() && rest[i] == t;
                assert(distinct(v)[i] == t);
            }
            if distinct(v).contains(t) && t != v.last() {
                let i = choose|i: int| 0 <= i < distinct(v).len() && distinct(v)[i] == t;
                assert(rest[i] == t);
            }
            assert(v[v.len() - 1] == v.last());
            if !rest.contains(v.last()) {
                assert(distinct(v)[rest.len() as int] == v.last());
            }
        }
    }
}

/// The texts of `v` without repetition, in the order in which they first appear.
pub fn dedup(v: &Vec<String>) -> (r: Vec<String>)
    ensures
        texts_of(r@) == distinct(texts_of(v@)),
{
    let ghost all = texts_of(v@);
    let mut r: Vec<String> = Vec::new();
    let n: usize = v.len();
    let mut i: usize = 0;
    assert(texts_of(r@) =~= distinct(all.take(0)));
    while i < n
        invariant
            n == v@.len(),
            all == texts_of(v@),
            i <= n,
            texts_of(r@) == distinct(all.take(i as int)),
        decreases n - i,
    {
        let ghost before = texts_of(r@);
        assert(all.take(i + 1).drop_last() == all.take(i as int));
        if !holds_text(&r, v[i].as_str()) {
            r.push(v[i].clone());
            assert(texts_of(r@) =~= before.push(v@[i as int]@));
        }
        i += 1;
    }
    assert(all.take(n as int) == all);
    r
}

/// The characters of `s`, in order.
pub fn chars_of(s: &str) -> (v: Vec<char>)
    ensures
        v@ == s@,
{
    let mut v: Vec<char> = Vec::new();
    for c in it: s.chars()
        invariant
            it.seq() == s@,
            v@ == s@.take(it.index()),
    {
        v.push(c);
    }
    v
}

/// The text made of `v[from..to]`.
pub fn string_between(v: &Vec<char>, from: usize, to: usize) -> (s: String)
    requires
        from <= to <= v@.len(),
    ensures
        s@ == v@.subrange(from as int, to as int),
{
    let mut s: String = String::new();
    let mut i: usize = from;
    while i < to
        invariant
            from <= i <= to <= v@.len(),
            s@ == v@.subrange(from as int, i as int),
        decreases to - i,
    {
        s.push(v[i]);
        i += 1;
    }
    s
}

/// The text made of the given characters.
pub fn string_of(v: &Vec<char>) -> (s: String)
    ensures
        s@ == v@,
{
    let s: String = string_between(v, 0, v.len());
    assert(v@.subrange(0, v@.len() as int) == v@);
    s
}

/// Whether two texts hold the same characters.
pub fn same_text(a: &str, b: &str) -> (r: bool)
    ensures
        r == (a@ == b@),
{
    a.to_owned() == b.to_owned()
}

/// Whether an optional text is present and equal to `b`.
pub fn is_text(a: &Option<String>, b: &str) -> (r: bool)
    ensures
        r == (text_of(*a) == Some(b@)),
{
    match a {
        Some(s) => same_text(s.as_str(), b),
        None => false,
    }
}

/// A copy of an optional text.
pub fn copy_text(a: &Option<String>) -> (r: Option<String>)
    ensures
        text_of(r) == text_of(*a),
        r == *a,
{
    match a {
        Some(s) => Some(s.clone()),
        None => None,
    }
}

/// A copy of a list of texts.
pub fn copy_texts(v: &Vec<String>) -> (r: Vec<String>)
    ensures
        r@ == v@,
{
    let mut r: Vec<String> = Vec::new();
    let mut i: usize = 0;
    while i < v.len()
        invariant
            i <= v@.len(),
            r@ == v@.take(i as int),
        decreases v@.len() - i,
    {
        r.push(v[i].clone());
        i += 1;
    }
    r
}

/// Whether `v` holds a text equal to `s`.
pub fn holds_text(v: &Vec<String>, s: &str) -> (r: bool)
    ensures
        r == texts_of(v@).contains(s@),
{
    let mut i: usize = 0;
    while i < v.len()
        invariant
            i <= v@.len(),
            forall|j: int| 0 <= j < i ==> texts_of(v@)[j] != s@,
        decreases v@.len() - i,
    {
        if same_text(v[i].as_str(), s) {
            assert(texts_of(v@)[i as int] == s@);
            return true;
        }
        i += 1;
    }
    false
}

/// `a` followed by `b`.
pub fn join(a: &str, b: &str) -> (r: String)
    ensures
        r@ == a@ + b@,
{
    let mut r: String = a.to_owned();
    r.append(b);
    r
}

/// Whether `pat` stands in `v` at position `at`.
pub fn matches_at(v: &Vec<char>, at: usize, pat: &Vec<char>) -> (r: bool)
    requires
        at <= v@.len(),
    ensures
        r == pat@.is_prefix_of(v@.skip(at as int)),
{
    let n: usize = v.len();
    if pat.len() > n - at {
        return false;
    }
    let mut i: usize = 0;
    while i < pat.len()
        invariant
            n == v@.len(),
            at <= v@.len(),
            i <= pat@.len() <= v@.len() - at,
            forall|j: int| 0 <= j < i ==> pat@[j] == v@.skip(at as int)[j],
        decreases pat@.len() - i,
    {
        if v[at + i] != pat[i] {
            assert(v@.skip(at as int)[i as int] != pat@[i as int]);
            return false;
        }
        i += 1;
    }
    assert(pat@ =~= v@.skip(at as int).subrange(0, pat@.len() as int));
    true
}

/// What follows `prefix` in `s`, or `None` where `s` does not begin with it.
pub fn strip_prefix(s: &str, prefix: &str) -> (r: Option<String>)
    ensures
        text_of(r) == stripped(s@, prefix@),
{
    let v: Vec<char> = chars_of(s);
    let p: Vec<char> = chars_of(prefix);
    if matches_at(&v, 0, &p) {
        assert(v@.skip(0) == v@);
        assert(v@.subrange(p@.len() as int, v@.len() as int) == s@.skip(prefix@.len() as int));
        Some(string_between(&v, p.len(), v.len()))
    } else {
        assert(v@.skip(0) == v@);
        None
    }
}

/// What follows `prefix` in `s`.
pub open spec fn stripped(s: Seq<char>, prefix: Seq<char>) -> Option<Seq<char>> {
    if prefix.is_prefix_of(s) {
        Some(s.skip(prefix.len() as int))
    } else {
        None
    }
}

/// Whether `c` is white space.
pub fn space(c: char) -> (r: bool)
    ensures
        r == is_space(c),
{
    ('\u{9}' <= c && c <= '\u{d}') || c == ' ' || c == '\u{85}' || c == '\u{a0}' || c == '\u{1680}'
        || ('\u{2000}' <= c && c <= '\u{200a}') || c == '\u{2028}' || c == '\u{2029}' || c
        == '\u{202f}' || c == '\u{205f}' || c == '\u{3000}'
}

/// `s` without leading and trailing white space.
pub fn trim(s: &str) -> (r: String)
    ensures
        r@ == trimmed(s@),
{
    let v: Vec<char> = chars_of(s);
    let mut a: usize = 0;
    assert(v@.skip(0) == v@);
    while a < v.len() && space(v[a])
        invariant
            a <= v@.len(),
            trimmed_start(v@) == trimmed_start(v@.skip(a as int)),
        decreases v@.len() - a,
    {
        assert(v@.skip(a as int).skip(1) == v@.skip(a as int + 1));
        a += 1;
    }
    assert(trimmed_start(v@) == v@.skip(a as int));
    let mut b: usize = v.len();
    assert(v@.skip(a as int) == v@.subrange(a as int, b as int));
    while b > a && space(v[b - 1])
        invariant
            a <= b <= v@.len(),
            trimmed_end(v@.skip(a as int)) == trimmed_end(v@.subrange(a as int, b as int)),
        decreases b,
    {
        assert(v@.subrange(a as int, b as int).drop_last() == v@.subrange(a as int, b - 1));
        b -= 1;
    }
    string_between(&v, a, b)
}

/// `s` with ASCII letters in upper case.
pub fn to_ascii_upper(s: &str) -> (r: String)
    ensures
        r@ == ascii_upper(s@),
{
    let v: Vec<char> = chars_of(s);
    let mut r: String = String::new();
    let mut i: usize = 0;
    while i < v.len()
        invariant
            i <= v@.len(),
            r@ == ascii_upper(v@.take(i as int)),
        decreases v@.len() - i,
    {
        let c: char = v[i];
        let u: char = if 'a' <= c && c <= 'z' {
            (c as u8 - 32) as char
        } else {
            c
        };
        r.push(u);
        assert(ascii_upper(v@.take(i as int + 1)) =~= ascii_upper(v@.take(i as int)).push(u));
        i += 1;
    }
    assert(v@.take(v@.len() as int) == v@);
    r
}

/// `s` with every occurrence of `pat` replaced by `to`.
pub fn replace_all(s: &str, pat: &str, to: &str) -> (r: String)
    requires
        pat@.len() > 0,
    ensures
        r@ == replaced(s@, pat@, to@),
{
    let v: Vec<char> = chars_of(s);
    let p: Vec<char> = chars_of(pat);
    let mut r: String = String::new();
    let mut i: usize = 0;
    assert(v@.skip(0) == v@);
    while i < v.len()
        invariant
            i <= v@.len(),
            p@ == pat@,
            p@.len() > 0,
            replaced(v@, pat@, to@) == r@ + replaced(v@.skip(i as int), pat@, to@),
        decreases v@.len() - i,
    {
        let ghost rest = v@.skip(i as int);
        if matches_at(&v, i, &p) {
            r.append(to);
            assert(rest.take(p@.len() as int) == pat@);
            assert(rest.skip(p@.len() as int) == v@.skip(i + p@.len()));
            i += p.len();
        } else {
            assert(rest.len() >= p@.len() ==> rest.take(p@.len() as int) != pat@) by {
                if rest.len() >= p@.len() && rest.take(p@.len() as int) == pat@ {
                    assert(pat@.is_prefix_of(rest));
                }
            }
            assert(rest.skip(1) == v@.skip(i + 1));
            assert(rest == seq![rest[0]] + rest.skip(1));
            assert(seq![rest[0]] == Seq::<char>::empty().push(v@[i as int]));
            r.push(v[i]);
            i += 1;
        }
    }
    r
}

/// What precedes `suffix` in `s`.
pub open spec fn stripped_end(s: Seq<char>, suffix: Seq<char>) -> Option<Seq<char>> {
    if suffix.is_suffix_of(s) {
        Some(s.take(s.len() - suffix.len()))
    } else {
        None
    }
}

/// What precedes `suffix` in `s`, or `None` where `s` does not end with it.
pub fn strip_suffix(s: &str, suffix: &str) -> (r: Option<String>)
    ensures
        text_of(r) == stripped_end(s@, suffix@),
{
    let v: Vec<char> = chars_of(s);
    let p: Vec<char> = chars_of(suffix);
    if p.len() > v.len() {
        return None;
    }
    let at: usize = v.len() - p.len();
    if matches_at(&v, at, &p) {
        assert(v@.skip(at as int) =~= p@);
        assert(p@ =~= v@.subrange(v@.len() - p@.len(), v@.len() as int));
        assert(v@.subrange(0, at as int) == s@.take(s@.len() - suffix@.len()));
        Some(string_between(&v, 0, at))
    } else {
        assert(!suffix@.is_suffix_of(s@)) by {
            if suffix@.is_suffix_of(s@) {
                assert(v@.skip(at as int) =~= p@);
            }
        }
        None
    }
}

/// The ASCII letters and digits of `s`, in order.
pub open spec fn alnum_only(s: Seq<char>) -> Seq<char>
    decreases s.len(),
{
    if s.len() == 0 {
        Seq::empty()
    } else if is_ascii_alnum(s.last()) {
        alnum_only(s.drop_last()).push(s.last())
    } else {
        alnum_only(s.drop_last())
    }
}

/// The ASCII letters and digits of `s`, in order.
pub fn keep_alnum(s: &str) -> (r: String)
    ensures
        r@ == alnum_only(s@),
{
    let v: Vec<char> = chars_of(s);
    let mut r: String = String::new();
    let n: usize = v.len();
    let mut i: usize = 0;
    while i < n
        invariant
            n == v@.len(),
            i <= n,
            r@ == alnum_only(v@.take(i as int)),
        decreases n - i,
    {
        let c: char = v[i];
        assert(v@.take(i + 1).drop_last() == v@.take(i as int));
        if ('a' <= c && c <= 'z') || ('A' <= c && c <= 'Z') || ('0' <= c && c <= '9') {
            r.push(c);
        }
        i += 1;
    }
    assert(v@.take(n as int) == v@);
    r
}

/// `s` with ASCII letters in lower case.
pub fn to_ascii_lower(s: &str) -> (r: String)
    ensures
        r@ == ascii_lower(s@),
{
    let v: Vec<char> = chars_of(s);
    let mut r: String = String::new();
    let n: usize = v.len();
    let mut i: usize = 0;
    while i < n
        invariant
            n == v@.len(),
            i <= n,
            r@ == ascii_lower(v@.take(i as int)),
        decreases n - i,
    {
        let c: char = v[i];
        let u: char = if 'A' <= c && c <= 'Z' {
            (c as u8 + 32) as char
        } else {
            c
        };
        r.push(u);
        assert(ascii_lower(v@.take(i + 1)) =~= ascii_lower(v@.take(i as int)).push(u));
        i += 1;
    }
    assert(v@.take(n as int) == v@);
    r
}

/// Trimming takes away white space at both ends, all of it and nothing else.
pub proof fn trimming_takes_white_space_only(s: Seq<char>)
    ensures
        exists|a: int, b: int|
            {
                &&& 0 <= a <= b <= s.len()
                &&& trimmed(s) == #[trigger] s.subrange(a, b)
                &&& forall|i: int| 0 <= i < a ==> is_space(#[trigger] s[i])
                &&& forall|i: int| b <= i < s.len() ==> is_space(#[trigger] s[i])
            },
        trimmed(s).len() > 0 ==> !is_space(trimmed(s)[0]) && !is_space(trimmed(s).last()),
{
    let a = lemma_trimmed_start(s);
    let mid = trimmed_start(s);
    let n = lemma_trimmed_end(mid);
    let b = a + n;
    assert(mid.take(n) =~= s.subrange(a, b));
    assert forall|i: int| b <= i < s.len() implies is_space(#[trigger] s[i]) by {
        assert(mid[i - a] == s[i]);
    }
    if n > 0 {
        assert(mid.take(n)[0] == mid[0]);
    }
}

proof fn lemma_trimmed_start(s: Seq<char>) -> (a: int)
    ensures
        0 <= a <= s.len(),
        trimmed_start(s) == s.skip(a),
        forall|i: int| 0 <= i < a ==> is_space(#[trigger] s[i]),
        a < s.len() ==> !is_space(s[a]),
    decreases s.len(),
{
    if s.len() > 0 && is_space(s[0]) {
        let rest = s.skip(1);
        let a = lemma_trimmed_start(rest);
        assert(rest.skip(a) =~= s.skip(a + 1));
        assert forall|i: int| 0 <= i < a + 1 implies is_space(#[trigger] s[i]) by {
            if i > 0 {
                assert(rest[i - 1] == s[i]);
            }
        }
        if a < rest.len() {
            assert(rest[a] == s[a + 1]);
        }
        a + 1
    } else {
        assert(s.skip(0) =~= s);
        0
    }
}

proof fn lemma_trimmed_end(s: Seq<char>) -> (n: int)
    ensures
        0 <= n <= s.len(),
        trimmed_end(s) == s.take(n),
        forall|i: int| n <= i < s.len() ==> is_space(#[trigger] s[i]),
        n > 0 ==> !is_space(s[n - 1]),
    decreases s.len(),
{
    if s.len() > 0 && is_space(s.last()) {
        let n = lemma_trimmed_end(s.drop_last());
        assert(s.drop_last().take(n) =~= s.take(n));
        assert forall|i: int| n <= i < s.len() implies is_space(#[trigger] s[i]) by {
            if i < s.len() - 1 {
                assert(s.drop_last()[i] == s[i]);
            }
        }
        if n > 0 {
            assert(s.drop_last()[n - 1] == s[n - 1]);
        }
        n
    } else {
        assert(s.take(s.len() as int) =~= s);
        s.len() as int
    }
}

/// What is kept of a text for a key or a link is exactly its ASCII letters and digits, in order.
pub proof fn only_letters_and_digits_are_kept(s: Seq<char>)
    ensures
        alnum_only(s) == s.filter(
            |c: char| '0' <= c <= '9' || 'a' <= c <= 'z' || 'A' <= c <= 'Z',
        ),
    decreases s.len(),
{
    let keep = |c: char| '0' <= c <= '9' || 'a' <= c <= 'z' || 'A' <= c <= 'Z';
    reveal(Seq::filter);
    if s.len() > 0 {
        only_letters_and_digits_are_kept(s.drop_last());
    }
    assert(alnum_only(s) =~= s.filter(keep));
}

/// Changing the case of ASCII letters leaves every other character alone, and the two mappings
/// undo each other on letters.
pub proof fn case_mappings_touch_letters_only(s: Seq<char>, i: int)
    requires
        0 <= i < s.len(),
    ensures
        ascii_upper(s).len() == s.len(),
        ascii_lower(s).len() == s.len(),
        'a' <= s[i] <= 'z' ==> ascii_upper(s)[i] as int == s[i] as int - 32 && ascii_lower(s)[i]
            == s[i],
        'A' <= s[i] <= 'Z' ==> ascii_lower(s)[i] as int == s[i] as int + 32 && ascii_upper(s)[i]
            == s[i],
        !('a' <= s[i] <= 'z') && !('A' <= s[i] <= 'Z') ==> ascii_upper(s)[i] == s[i]
            && ascii_lower(s)[i] == s[i],
{
}

/// The pattern stands in the text at `i`.
pub open spec fn occurs(s: Seq<char>, pat: Seq<char>, i: int) -> bool {
    0 <= i && i + pat.len() <= s.len() && s.subrange(i, i + pat.len()) == pat
}

/// Replacing a pattern leaves a text alone in which it does not occur, and replaces the first
/// occurrence by the new text, with everything before it as it was.
pub proof fn replacing_goes_by_occurrence(s: Seq<char>, pat: Seq<char>, to: Seq<char>, at: int)
    requires
        pat.len() > 0,
        0 <= at <= s.len(),
        forall|i: int| 0 <= i < at ==> !occurs(s, pat, i),
    ensures
        at == s.len() ==> replaced(s, pat, to) == s,
        occurs(s, pat, at) ==> replaced(s, pat, to) == s.take(at) + to + replaced(
            s.skip(at + pat.len()),
            pat,
            to,
        ),
    decreases s.len(),
{
    let n = pat.len() as int;
    if at == 0 {
        if occurs(s, pat, 0) {
            assert(s.take(n) =~= s.subrange(0, 0 + n));
            assert(s.take(0) + to =~= to);
        }
    } else if s.len() >= n {
        assert(!occurs(s, pat, 0));
        assert(s.take(n) =~= s.subrange(0, 0 + n));
        let rest = s.skip(1);
        assert forall|i: int| 0 <= i < at - 1 implies !occurs(rest, pat, i) by {
            assert(!occurs(s, pat, i + 1));
            if i + n <= rest.len() {
                assert(rest.subrange(i, i + n) =~= s.subrange(i + 1, i + 1 + n));
            }
        }
        replacing_goes_by_occurrence(rest, pat, to, at - 1);
        assert(seq![s[0]] + rest =~= s);
        if occurs(s, pat, at) {
            assert(rest.subrange(at - 1, at - 1 + n) =~= s.subrange(at, at + n));
            assert(rest.skip(at - 1 + n) =~= s.skip(at + n));
            let tail = replaced(s.skip(at + n), pat, to);
            assert(seq![s[0]] + (rest.take(at - 1) + to + tail) =~= s.take(at) + to + tail);
        }
    }
}

/// White space is the blank and the controls from tab to carriage return, the next line control,
/// and the spaces and separators of Unicode.
pub proof fn white_space_is_unicode(c: char)
    ensures
        is_space(c) <==> {
            let n = c as int;
            ||| 9 <= n <= 13
            ||| n == 32
            ||| n == 133
            ||| n == 160
            ||| n == 5760
            ||| 8192 <= n <= 8202
            ||| n == 8232
            ||| n == 8233
            ||| n == 8239
            ||| n == 8287
            ||| n == 12288
        },
{
}

} // verus!
