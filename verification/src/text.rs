//! Text operations over characters, each stated on the sequence of characters
//! that a string holds.
use vstd::prelude::*;

verus! {

/// `String::push`: appends one character to the end of the string.
pub assume_specification[ String::push ](s: &mut String, c: char)
    ensures
        final(s)@ == old(s)@.push(c),
;

/// The characters with the Unicode property `White_Space`.
pub open spec fn is_whitespace(c: char) -> bool {
    ||| '\u{9}' <= c <= '\u{d}'
    ||| c == ' '
    ||| c == '\u{85}'
    ||| c == '\u{a0}'
    ||| c == '\u{1680}'
    ||| '\u{2000}' <= c <= '\u{200a}'
    ||| c == '\u{2028}'
    ||| c == '\u{2029}'
    ||| c == '\u{202f}'
    ||| c == '\u{205f}'
    ||| c == '\u{3000}'
}

/// An ASCII decimal digit.
pub open spec fn is_digit(c: char) -> bool {
    '0' <= c <= '9'
}

/// An ASCII letter or digit.
pub open spec fn is_alphanumeric(c: char) -> bool {
    is_digit(c) || 'a' <= c <= 'z' || 'A' <= c <= 'Z'
}

/// The position of the first `c` in `s`, or the length of `s` where it has none.
pub open spec fn first_index(s: Seq<char>, c: char) -> nat
    decreases s.len(),
{
    if s.len() == 0 || s[0] == c {
        0
    } else {
        1 + first_index(s.drop_first(), c)
    }
}

/// What stands before the first `c`.
pub open spec fn before(s: Seq<char>, c: char) -> Seq<char> {
    s.take(first_index(s, c) as int)
}

/// What stands behind the first `c`.
pub open spec fn after(s: Seq<char>, c: char) -> Seq<char> {
    s.skip(first_index(s, c) as int + 1)
}

/// `s` without the whitespace that it starts with.
pub open spec fn trim_start(s: Seq<char>) -> Seq<char>
    decreases s.len(),
{
    if s.len() > 0 && is_whitespace(s[0]) {
        trim_start(s.drop_first())
    } else {
        s
    }
}

/// `s` without the whitespace that it ends with.
pub open spec fn trim_end(s: Seq<char>) -> Seq<char>
    decreases s.len(),
{
    if s.len() > 0 && is_whitespace(s.last()) {
        trim_end(s.drop_last())
    } else {
        s
    }
}

/// `s` without the whitespace at both of its ends.
pub open spec fn trimmed(s: Seq<char>) -> Seq<char> {
    trim_end(trim_start(s))
}

/// `s` without the characters `c` that it starts with.
pub open spec fn without_leading(s: Seq<char>, c: char) -> Seq<char>
    decreases s.len(),
{
    if s.len() > 0 && s[0] == c {
        without_leading(s.drop_first(), c)
    } else {
        s
    }
}

/// `s` without the characters `c` that it ends with.
pub open spec fn without_trailing(s: Seq<char>, c: char) -> Seq<char>
    decreases s.len(),
{
    if s.len() > 0 && s.last() == c {
        without_trailing(s.drop_last(), c)
    } else {
        s
    }
}

/// `s` with every `suffix` taken off its end, as often as it ends with one.
pub open spec fn without_suffixes(s: Seq<char>, suffix: Seq<char>) -> Seq<char>
    decreases s.len(),
{
    if suffix.len() > 0 && suffix.is_suffix_of(s) {
        without_suffixes(s.take(s.len() - suffix.len()), suffix)
    } else {
        s
    }
}

/// `s` with every `from` replaced by `to`, left to right and without overlap.
pub open spec fn replaced(s: Seq<char>, from: Seq<char>, to: Seq<char>) -> Seq<char>
    decreases s.len(),
{
    if s.len() == 0 || from.len() == 0 {
        s
    } else if from.is_prefix_of(s) {
        to + replaced(s.skip(from.len() as int), from, to)
    } else {
        seq![s[0]] + replaced(s.drop_first(), from, to)
    }
}

/// `s` with the first `from` replaced by `to`.
pub open spec fn replaced_once(s: Seq<char>, from: Seq<char>, to: Seq<char>) -> Seq<char>
    decreases s.len(),
{
    if from.is_prefix_of(s) {
        to + s.skip(from.len() as int)
    } else if s.len() == 0 {
        s
    } else {
        seq![s[0]] + replaced_once(s.drop_first(), from, to)
    }
}

/// The pieces of `s` between the characters `c`: always one more than `s` has of them.
pub open spec fn pieces(s: Seq<char>, c: char) -> Seq<Seq<char>>
    decreases s.len(),
{
    if first_index(s, c) >= s.len() {
        seq![s]
    } else {
        seq![before(s, c)] + pieces(after(s, c), c)
    }
}

/// The parts one after the other, with `separator` between them.
pub open spec fn joined(parts: Seq<Seq<char>>, separator: Seq<char>) -> Seq<char>
    decreases parts.len(),
{
    if parts.len() == 0 {
        Seq::empty()
    } else if parts.len() == 1 {
        parts[0]
    } else {
        joined(parts.drop_last(), separator) + separator + parts.last()
    }
}

/// What the strings hold.
pub open spec fn texts(strings: Seq<String>) -> Seq<Seq<char>> {
    Seq::new(strings.len(), |i: int| strings[i]@)
}

/// The digit for a number below ten.
pub open spec fn digit(n: nat) -> char {
    (48 + n) as char
}

/// `n` in base ten, without leading zeros.
pub open spec fn decimal(n: nat) -> Seq<char>
    decreases n,
{
    if n < 10 {
        seq![digit(n)]
    } else {
        decimal(n / 10).push(digit(n % 10))
    }
}

/// Lexicographic order by code point, which is the order of the UTF-8 bytes.
pub open spec fn text_less(a: Seq<char>, b: Seq<char>) -> bool
    decreases a.len(),
{
    if b.len() == 0 {
        false
    } else if a.len() == 0 {
        true
    } else if a[0] != b[0] {
        a[0] < b[0]
    } else {
        text_less(a.drop_first(), b.drop_first())
    }
}


/// `first_index` is where the first `c` stands.
pub proof fn lemma_first_index(s: Seq<char>, c: char)
    ensures
        first_index(s, c) <= s.len(),
        forall|i: int| 0 <= i < first_index(s, c) ==> s[i] != c,
        first_index(s, c) < s.len() ==> s[first_index(s, c) as int] == c,
    decreases s.len(),
{
    if s.len() > 0 && s[0] != c {
        lemma_first_index(s.drop_first(), c);
        assert forall|i: int| 0 <= i < first_index(s, c) implies s[i] != c by {
            if i > 0 {
                assert(s[i] == s.drop_first()[i - 1]);
            }
        }
    }
}

/// The first `c` is the one with none before it.
pub proof fn lemma_first_index_unique(s: Seq<char>, c: char, k: int)
    requires
        0 <= k <= s.len(),
        forall|i: int| 0 <= i < k ==> s[i] != c,
        k < s.len() ==> s[k] == c,
    ensures
        first_index(s, c) == k,
{
    lemma_first_index(s, c);
    let f = first_index(s, c) as int;
    if f < k {
        assert(s[f] != c);
    }
}

/// The characters of `s`.
pub fn chars_of(s: &str) -> (r: Vec<char>)
    ensures
        r@ == s@,
{
    let mut v: Vec<char> = Vec::new();
    for c in it: s.chars()
        invariant
            it.seq() == s@,
            v@ == s@.take(it.index() as int),
    {
        v.push(c);
    }
    assert(s@.take(s@.len() as int) == s@);
    v
}

/// The string of the characters from `from` up to `to`.
pub fn string_of(chars: &Vec<char>, from: usize, to: usize) -> (r: String)
    requires
        from <= to <= chars@.len(),
    ensures
        r@ == chars@.subrange(from as int, to as int),
{
    let mut s: String = String::new();
    let mut i: usize = from;
    while i < to
        invariant
            from <= i <= to <= chars@.len(),
            s@ == chars@.subrange(from as int, i as int),
        decreases to - i,
    {
        s.push(chars[i]);
        i += 1;
    }
    s
}

/// Whether two strings hold the same characters.
pub fn same(a: &str, b: &str) -> (r: bool)
    ensures
        r == (a@ == b@),
{
    let x = chars_of(a);
    let y = chars_of(b);
    if x.len() != y.len() {
        return false;
    }
    let mut i: usize = 0;
    while i < x.len()
        invariant
            i <= x@.len() == y@.len(),
            x@.take(i as int) == y@.take(i as int),
            x@ == a@,
            y@ == b@,
        decreases x@.len() - i,
    {
        if x[i] != y[i] {
            assert(a@[i as int] != b@[i as int]);
            return false;
        }
        assert(x@.take(i + 1) == x@.take(i as int).push(x@[i as int]));
        assert(y@.take(i + 1) == y@.take(i as int).push(y@[i as int]));
        i += 1;
    }
    assert(x@.take(i as int) == a@);
    assert(y@.take(i as int) == b@);
    true
}

/// Where the first `c` stands in `s`.
pub fn find(s: &str, c: char) -> (r: Option<usize>)
    ensures
        match r {
            Some(i) => i == first_index(s@, c) && i < s@.len(),
            None => first_index(s@, c) == s@.len(),
        },
{
    let v = chars_of(s);
    let mut i: usize = 0;
    while i < v.len()
        invariant
            i <= v@.len(),
            v@ == s@,
            forall|j: int| 0 <= j < i ==> s@[j] != c,
        decreases v@.len() - i,
    {
        if v[i] == c {
            proof {
                lemma_first_index_unique(s@, c, i as int);
            }
            return Some(i);
        }
        i += 1;
    }
    proof {
        lemma_first_index_unique(s@, c, i as int);
    }
    None
}

/// `s` in two at its first `c`, which belongs to neither part.
pub fn split_once<'a>(s: &'a str, c: char) -> (r: Option<(&'a str, &'a str)>)
    ensures
        match r {
            Some((head, tail)) => {
                &&& first_index(s@, c) < s@.len()
                &&& head@ == before(s@, c)
                &&& tail@ == after(s@, c)
            },
            None => first_index(s@, c) == s@.len(),
        },
{
    match find(s, c) {
        Some(i) => {
            let n: usize = s.unicode_len();
            Some((s.substring_char(0, i), s.substring_char(i + 1, n)))
        },
        None => None,
    }
}

/// Whether `s` starts with `prefix`.
pub fn starts_with(s: &str, prefix: &str) -> (r: bool)
    ensures
        r == prefix@.is_prefix_of(s@),
{
    let n: usize = s.unicode_len();
    let m: usize = prefix.unicode_len();
    m <= n && same(s.substring_char(0, m), prefix)
}

/// What follows `prefix` in `s`, where `s` starts with it.
pub fn strip_prefix<'a>(s: &'a str, prefix: &str) -> (r: Option<&'a str>)
    ensures
        match r {
            Some(rest) => prefix@.is_prefix_of(s@) && rest@ == s@.skip(prefix@.len() as int),
            None => !prefix@.is_prefix_of(s@),
        },
{
    if starts_with(s, prefix) {
        let n: usize = s.unicode_len();
        let m: usize = prefix.unicode_len();
        Some(s.substring_char(m, n))
    } else {
        None
    }
}

/// What stands before a closing `c` of `s`, where `s` ends with one.
pub fn strip_last<'a>(s: &'a str, c: char) -> (r: Option<&'a str>)
    ensures
        match r {
            Some(rest) => s@.len() > 0 && s@.last() == c && rest@ == s@.drop_last(),
            None => s@.len() == 0 || s@.last() != c,
        },
{
    let n: usize = s.unicode_len();
    if n > 0 && s.get_char(n - 1) == c {
        Some(s.substring_char(0, n - 1))
    } else {
        None
    }
}

/// Whether `c` has the Unicode property `White_Space`.
pub fn whitespace(c: char) -> (r: bool)
    ensures
        r == is_whitespace(c),
{
    ('\u{9}' <= c && c <= '\u{d}') || c == ' ' || c == '\u{85}' || c == '\u{a0}' || c == '\u{1680}'
        || ('\u{2000}' <= c && c <= '\u{200a}') || c == '\u{2028}' || c == '\u{2029}'
        || c == '\u{202f}' || c == '\u{205f}' || c == '\u{3000}'
}

/// Whether `c` is an ASCII letter or digit.
pub fn alphanumeric(c: char) -> (r: bool)
    ensures
        r == is_alphanumeric(c),
{
    ('0' <= c && c <= '9') || ('a' <= c && c <= 'z') || ('A' <= c && c <= 'Z')
}

/// `s` without the whitespace at both of its ends.
pub fn trim<'a>(s: &'a str) -> (r: &'a str)
    ensures
        r@ == trimmed(s@),
{
    let v = chars_of(s);
    let mut i: usize = 0;
    let mut n: usize = v.len();
    assert(s@.skip(0) == s@);
    while i < n && whitespace(v[i])
        invariant
            i <= n == v@.len(),
            v@ == s@,
            trim_start(s@) == trim_start(s@.skip(i as int)),
        decreases n - i,
    {
        assert(s@.skip(i as int).drop_first() == s@.skip(i + 1));
        i += 1;
    }
    assert(trim_start(s@) == s@.skip(i as int));
    assert(s@.subrange(i as int, n as int) == s@.skip(i as int));
    while i < n && whitespace(v[n - 1])
        invariant
            i <= n <= v@.len(),
            v@ == s@,
            trimmed(s@) == trim_end(s@.subrange(i as int, n as int)),
        decreases n,
    {
        assert(s@.subrange(i as int, n as int).drop_last() == s@.subrange(i as int, n - 1));
        n -= 1;
    }
    s.substring_char(i, n)
}

/// `s` without the characters `c` that it starts with.
pub fn trim_leading<'a>(s: &'a str, c: char) -> (r: &'a str)
    ensures
        r@ == without_leading(s@, c),
{
    let v = chars_of(s);
    let n: usize = v.len();
    let mut i: usize = 0;
    assert(s@.skip(0) == s@);
    while i < n && v[i] == c
        invariant
            i <= n == v@.len(),
            v@ == s@,
            without_leading(s@, c) == without_leading(s@.skip(i as int), c),
        decreases n - i,
    {
        assert(s@.skip(i as int).drop_first() == s@.skip(i + 1));
        i += 1;
    }
    assert(s@.subrange(i as int, n as int) == s@.skip(i as int));
    s.substring_char(i, n)
}

/// `s` without the characters `c` that it ends with.
pub fn trim_trailing<'a>(s: &'a str, c: char) -> (r: &'a str)
    ensures
        r@ == without_trailing(s@, c),
{
    let v = chars_of(s);
    let mut n: usize = v.len();
    assert(s@.take(n as int) == s@);
    while n > 0 && v[n - 1] == c
        invariant
            n <= v@.len(),
            v@ == s@,
            without_trailing(s@, c) == without_trailing(s@.take(n as int), c),
        decreases n,
    {
        assert(s@.take(n as int).drop_last() == s@.take(n - 1));
        n -= 1;
    }
    assert(s@.subrange(0, n as int) == s@.take(n as int));
    s.substring_char(0, n)
}

/// `s` with every `suffix` taken off its end.
pub fn trim_suffixes<'a>(s: &'a str, suffix: &str) -> (r: &'a str)
    requires
        suffix@.len() > 0,
    ensures
        r@ == without_suffixes(s@, suffix@),
    decreases s@.len(),
{
    let n: usize = s.unicode_len();
    let m: usize = suffix.unicode_len();
    if m <= n && same(s.substring_char(n - m, n), suffix) {
        assert(suffix@.is_suffix_of(s@));
        assert(s@.subrange(0, n - m) == s@.take(n - m));
        trim_suffixes(s.substring_char(0, n - m), suffix)
    } else {
        s
    }
}

/// Whether the characters `pattern` stand in `v` from `i` on.
fn occurs_at(v: &Vec<char>, i: usize, pattern: &Vec<char>) -> (r: bool)
    requires
        i <= v@.len(),
    ensures
        r == pattern@.is_prefix_of(v@.skip(i as int)),
{
    if v.len() - i < pattern.len() {
        return false;
    }
    let mut j: usize = 0;
    let n: usize = v.len();
    while j < pattern.len()
        invariant
            i + pattern@.len() <= v@.len() == n,
            j <= pattern@.len(),
            forall|k: int| 0 <= k < j ==> #[trigger] v@.skip(i as int)[k] == pattern@[k],
        decreases pattern@.len() - j,
    {
        if v[i + j] != pattern[j] {
            assert(v@.skip(i as int)[j as int] != pattern@[j as int]);
            return false;
        }
        j += 1;
    }
    assert(v@.skip(i as int).take(pattern@.len() as int) =~= pattern@);
    true
}

/// `s` with every `from` replaced by `to`.
pub fn replace(s: &str, from: &str, to: &str) -> (r: String)
    requires
        from@.len() > 0,
    ensures
        r@ == replaced(s@, from@, to@),
{
    let v = chars_of(s);
    let pattern = chars_of(from);
    let mut out: String = String::new();
    let mut i: usize = 0;
    assert(s@.skip(0) == s@);
    while i < v.len()
        invariant
            i <= v@.len(),
            v@ == s@,
            pattern@ == from@,
            from@.len() > 0,
            replaced(s@, from@, to@) == out@ + replaced(s@.skip(i as int), from@, to@),
        decreases v@.len() - i,
    {
        let ghost rest = s@.skip(i as int);
        if occurs_at(&v, i, &pattern) {
            assert(rest.skip(from@.len() as int) == s@.skip(i + from@.len()));
            out.append(to);
            i += pattern.len();
        } else {
            assert(rest.drop_first() == s@.skip(i + 1));
            out.push(v[i]);
            i += 1;
        }
        assert(replaced(s@, from@, to@) == out@ + replaced(s@.skip(i as int), from@, to@));
    }
    assert(s@.skip(i as int).len() == 0);
    out
}

/// `s` with the first `from` replaced by `to`.
pub fn replace_once(s: &str, from: &str, to: &str) -> (r: String)
    ensures
        r@ == replaced_once(s@, from@, to@),
{
    let v = chars_of(s);
    let pattern = chars_of(from);
    let mut out: String = String::new();
    let mut i: usize = 0;
    assert(s@.skip(0) == s@);
    while i < v.len() && !occurs_at(&v, i, &pattern)
        invariant
            i <= v@.len(),
            v@ == s@,
            pattern@ == from@,
            replaced_once(s@, from@, to@) == out@ + replaced_once(s@.skip(i as int), from@, to@),
        decreases v@.len() - i,
    {
        let ghost rest = s@.skip(i as int);
        assert(rest.drop_first() == s@.skip(i + 1));
        out.push(v[i]);
        i += 1;
        assert(replaced_once(s@, from@, to@) == out@ + replaced_once(
            s@.skip(i as int),
            from@,
            to@,
        ));
    }
    if occurs_at(&v, i, &pattern) {
        let ghost rest = s@.skip(i as int);
        let tail = string_of(&v, i + pattern.len(), v.len());
        assert(tail@ == rest.skip(from@.len() as int));
        out.append(to);
        out.append(tail.as_str());
    }
    out
}

/// The pieces of `s` between the characters `c`.
pub fn split<'a>(s: &'a str, c: char) -> (r: Vec<&'a str>)
    ensures
        r@.len() == pieces(s@, c).len(),
        forall|i: int| 0 <= i < r@.len() ==> (#[trigger] r@[i])@ == pieces(s@, c)[i],
{
    let mut out: Vec<&'a str> = Vec::new();
    let mut rest: &'a str = s;
    let ghost mut done: Seq<Seq<char>> = Seq::empty();
    loop
        invariant_except_break
            done.len() == out@.len(),
            forall|i: int| 0 <= i < out@.len() ==> (#[trigger] out@[i])@ == done[i],
            pieces(s@, c) == done + pieces(rest@, c),
        ensures
            done.len() == out@.len(),
            forall|i: int| 0 <= i < out@.len() ==> (#[trigger] out@[i])@ == done[i],
            pieces(s@, c) == done,
        decreases rest@.len(),
    {
        match split_once(rest, c) {
            Some((head, tail)) => {
                out.push(head);
                proof {
                    done = done.push(head@);
                    assert(pieces(s@, c) == done + pieces(tail@, c));
                }
                rest = tail;
            },
            None => {
                out.push(rest);
                proof {
                    done = done.push(rest@);
                }
                break;
            },
        }
    }
    out
}

/// The parts one after the other, with `separator` between them.
pub fn join(parts: &Vec<String>, separator: &str) -> (r: String)
    ensures
        r@ == joined(texts(parts@), separator@),
{
    let mut out: String = String::new();
    let mut i: usize = 0;
    while i < parts.len()
        invariant
            i <= parts@.len(),
            out@ == joined(texts(parts@.take(i as int)), separator@),
        decreases parts@.len() - i,
    {
        let ghost so_far = texts(parts@.take(i + 1));
        assert(so_far.drop_last() == texts(parts@.take(i as int)));
        if i > 0 {
            out.append(separator);
        }
        out.append(parts[i].as_str());
        i += 1;
    }
    assert(parts@.take(i as int) == parts@);
    out
}

/// `n` in base ten.
pub fn decimal_of(n: u64) -> (r: String)
    ensures
        r@ == decimal(n as nat),
    decreases n,
{
    let mut s: String = if n < 10 {
        String::new()
    } else {
        decimal_of(n / 10)
    };
    s.push((48 + (n % 10) as u8) as char);
    s
}

/// Whether `a` comes before `b` in lexicographic order by code point.
pub fn less(a: &str, b: &str) -> (r: bool)
    ensures
        r == text_less(a@, b@),
{
    let x = chars_of(a);
    let y = chars_of(b);
    let mut i: usize = 0;
    assert(a@.skip(0) == a@);
    assert(b@.skip(0) == b@);
    while i < x.len() && i < y.len() && x[i] == y[i]
        invariant
            i <= x@.len(),
            i <= y@.len(),
            x@ == a@,
            y@ == b@,
            text_less(a@, b@) == text_less(a@.skip(i as int), b@.skip(i as int)),
        decreases x@.len() - i,
    {
        assert(a@.skip(i as int).drop_first() == a@.skip(i + 1));
        assert(b@.skip(i as int).drop_first() == b@.skip(i + 1));
        i += 1;
    }
    if i == y.len() {
        false
    } else if i == x.len() {
        true
    } else {
        x[i] < y[i]
    }
}

/// No text comes before itself, and of two different texts exactly one comes before the other.
pub proof fn text_order_is_total(a: Seq<char>, b: Seq<char>)
    ensures
        text_less(a, b) ==> a != b && !text_less(b, a),
        !text_less(a, b) && !text_less(b, a) ==> a == b,
    decreases a.len(),
{
    if a.len() > 0 && b.len() > 0 {
        text_order_is_total(a.drop_first(), b.drop_first());
        if a[0] == b[0] && a.drop_first() == b.drop_first() {
            assert(a == seq![a[0]] + a.drop_first());
            assert(b == seq![b[0]] + b.drop_first());
        }
    } else if a.len() == 0 && b.len() == 0 {
        assert(a == b);
    }
}

/// The order of texts is transitive.
pub proof fn text_order_is_transitive(a: Seq<char>, b: Seq<char>, c: Seq<char>)
    requires
        text_less(a, b),
        text_less(b, c),
    ensures
        text_less(a, c),
    decreases a.len(),
{
    if a.len() > 0 && a[0] == b[0] && b[0] == c[0] {
        text_order_is_transitive(a.drop_first(), b.drop_first(), c.drop_first());
    }
}

/// Whether `c` does not occur in `s`.
pub open spec fn lacks(s: Seq<char>, c: char) -> bool {
    forall|i: int| 0 <= i < s.len() ==> s[i] != c
}

/// What stands before the first `c` is the first piece, and the rest follows.
pub proof fn lemma_pieces_front(a: Seq<char>, c: char, b: Seq<char>)
    requires
        lacks(a, c),
    ensures
        pieces(a + seq![c] + b, c) == seq![a] + pieces(b, c),
{
    let s = a + seq![c] + b;
    lemma_first_index_unique(s, c, a.len() as int);
    assert(before(s, c) =~= a);
    assert(after(s, c) =~= b);
}

/// A text without `c` is one piece.
pub proof fn lemma_pieces_single(a: Seq<char>, c: char)
    requires
        lacks(a, c),
    ensures
        pieces(a, c) == seq![a],
{
    lemma_first_index_unique(a, c, a.len() as int);
}

/// A piece appended behind a `c` is the last piece.
pub proof fn lemma_pieces_back(s: Seq<char>, c: char, last: Seq<char>)
    requires
        lacks(last, c),
    ensures
        pieces(s + seq![c] + last, c) == pieces(s, c).push(last),
    decreases s.len(),
{
    lemma_first_index(s, c);
    lemma_pieces_single(last, c);
    let k = first_index(s, c) as int;
    if k >= s.len() {
        lemma_pieces_front(s, c, last);
        assert(seq![s] + seq![last] =~= seq![s].push(last));
    } else {
        let head = before(s, c);
        let tail = after(s, c);
        assert(s =~= head + seq![c] + tail);
        assert(s + seq![c] + last =~= head + seq![c] + (tail + seq![c] + last));
        lemma_pieces_front(head, c, tail);
        lemma_pieces_front(head, c, tail + seq![c] + last);
        lemma_pieces_back(tail, c, last);
        assert(seq![head] + pieces(tail, c).push(last) =~= (seq![head] + pieces(tail, c)).push(
            last,
        ));
    }
}

/// Joining texts with a separator that none of them holds, and splitting there again, gives the
/// texts back.
pub proof fn split_undoes_join(parts: Seq<Seq<char>>, c: char)
    requires
        parts.len() > 0,
        forall|i: int| 0 <= i < parts.len() ==> lacks(#[trigger] parts[i], c),
    ensures
        pieces(joined(parts, seq![c]), c) == parts,
    decreases parts.len(),
{
    assert(lacks(parts[parts.len() - 1], c));
    if parts.len() == 1 {
        lemma_pieces_single(parts[0], c);
        assert(seq![parts[0]] =~= parts);
    } else {
        let shorter = parts.drop_last();
        assert forall|i: int| 0 <= i < shorter.len() implies lacks(#[trigger] shorter[i], c) by {
            assert(lacks(parts[i], c));
        }
        split_undoes_join(shorter, c);
        lemma_pieces_back(joined(shorter, seq![c]), c, parts.last());
        assert(shorter.push(parts.last()) =~= parts);
    }
}

/// A prefix without `c` is a prefix of the first piece.
pub proof fn lemma_prefix_of_first_piece(s: Seq<char>, c: char, prefix: Seq<char>)
    requires
        prefix.is_prefix_of(s),
        lacks(prefix, c),
    ensures
        pieces(s, c).len() > 0,
        prefix.is_prefix_of(pieces(s, c)[0]),
{
    lemma_first_index(s, c);
    let k = first_index(s, c) as int;
    if k < prefix.len() {
        assert(s[k] == prefix[k]);
    }
    assert(before(s, c).take(prefix.len() as int) =~= prefix);
}

/// What holds of the characters of every piece holds of every character that does not separate
/// them.
pub proof fn lemma_all_by_pieces(s: Seq<char>, c: char, p: spec_fn(char) -> bool)
    requires
        forall|i: int, j: int|
            0 <= i < pieces(s, c).len() && 0 <= j < pieces(s, c)[i].len() ==> p(
                #[trigger] pieces(s, c)[i][j],
            ),
    ensures
        forall|i: int| 0 <= i < s.len() ==> #[trigger] s[i] == c || p(s[i]),
    decreases s.len(),
{
    lemma_first_index(s, c);
    let all = pieces(s, c);
    if first_index(s, c) >= s.len() {
        assert forall|i: int| 0 <= i < s.len() implies #[trigger] s[i] == c || p(s[i]) by {
            assert(all[0] == s);
            assert(p(all[0][i]));
        }
    } else {
        let head = before(s, c);
        let tail = after(s, c);
        let rest = pieces(tail, c);
        assert(all[0] == head);
        assert forall|i: int, j: int| 0 <= i < rest.len() && 0 <= j < rest[i].len() implies p(
            #[trigger] rest[i][j],
        ) by {
            assert(all[i + 1] == rest[i]);
            assert(p(all[i + 1][j]));
        }
        lemma_all_by_pieces(tail, c, p);
        assert forall|i: int| 0 <= i < s.len() implies #[trigger] s[i] == c || p(s[i]) by {
            if i < head.len() {
                assert(s[i] == head[i]);
                assert(p(all[0][i]));
            } else if i > head.len() {
                assert(s[i] == tail[i - head.len() - 1]);
            }
        }
    }
}

/// A number is written with digits only, and with at least one.
pub proof fn lemma_decimal_digits(n: nat)
    ensures
        decimal(n).len() > 0,
        forall|i: int| 0 <= i < decimal(n).len() ==> is_digit(#[trigger] decimal(n)[i]),
    decreases n,
{
    if n >= 10 {
        lemma_decimal_digits(n / 10);
    }
}

/// Different numbers are written differently.
pub proof fn lemma_decimal_injective(m: nat, n: nat)
    requires
        decimal(m) == decimal(n),
    ensures
        m == n,
    decreases m,
{
    lemma_decimal_digits(m / 10);
    lemma_decimal_digits(n / 10);
    let (a, b) = (decimal(m), decimal(n));
    assert(a.last() == b.last());
    if m >= 10 && n >= 10 {
        assert(a.drop_last() =~= decimal(m / 10));
        assert(b.drop_last() =~= decimal(n / 10));
        lemma_decimal_injective(m / 10, n / 10);
    }
}

/// Texts that start and end with something visible come out of trimming as they are, also with one
/// space in front.
pub proof fn lemma_trim_one_space(s: Seq<char>)
    requires
        s.len() > 0,
        !is_whitespace(s[0]),
        !is_whitespace(s.last()),
    ensures
        trimmed(seq![' '] + s) == s,
{
    let spaced = seq![' '] + s;
    assert(spaced[0] == ' ');
    assert(spaced.drop_first() =~= s);
    assert(trim_start(spaced) == trim_start(s));
}

/// A character that none of the parts holds, nor the separator, is not in what they are joined to.
pub proof fn lemma_joined_lacks(parts: Seq<Seq<char>>, separator: Seq<char>, c: char)
    requires
        lacks(separator, c),
        forall|i: int| 0 <= i < parts.len() ==> lacks(#[trigger] parts[i], c),
    ensures
        lacks(joined(parts, separator), c),
    decreases parts.len(),
{
    if parts.len() == 1 {
        assert(lacks(parts[0], c));
    } else if parts.len() > 1 {
        let shorter = parts.drop_last();
        assert forall|i: int| 0 <= i < shorter.len() implies lacks(#[trigger] shorter[i], c) by {
            assert(lacks(parts[i], c));
        }
        lemma_joined_lacks(shorter, separator, c);
        assert(lacks(parts[parts.len() - 1], c));
    }
}

/// What is joined starts as the first part starts and ends as the last part ends.
pub proof fn lemma_joined_ends(parts: Seq<Seq<char>>, separator: Seq<char>)
    requires
        parts.len() > 0,
        parts[0].len() > 0,
        parts.last().len() > 0,
    ensures
        joined(parts, separator).len() > 0,
        joined(parts, separator)[0] == parts[0][0],
        joined(parts, separator).last() == parts.last().last(),
    decreases parts.len(),
{
    if parts.len() > 1 {
        lemma_joined_starts(parts.drop_last(), separator);
    }
}

/// What is joined starts as the first part starts.
proof fn lemma_joined_starts(parts: Seq<Seq<char>>, separator: Seq<char>)
    requires
        parts.len() > 0,
        parts[0].len() > 0,
    ensures
        joined(parts, separator).len() > 0,
        joined(parts, separator)[0] == parts[0][0],
    decreases parts.len(),
{
    if parts.len() > 1 {
        lemma_joined_starts(parts.drop_last(), separator);
    }
}

/// Replacing starts behind a text in which the pattern's first character does not occur.
pub proof fn lemma_replaced_behind(a: Seq<char>, b: Seq<char>, from: Seq<char>, to: Seq<char>)
    requires
        from.len() > 0,
        lacks(a, from[0]),
    ensures
        replaced(a + b, from, to) == a + replaced(b, from, to),
    decreases a.len(),
{
    if a.len() == 0 {
        assert(a + b =~= b);
        assert(a + replaced(b, from, to) =~= replaced(b, from, to));
    } else {
        let s = a + b;
        assert(s[0] == a[0]);
        assert(from[0] != a[0]);
        assert(!from.is_prefix_of(s));
        assert(s.drop_first() =~= a.drop_first() + b);
        assert forall|i: int| 0 <= i < a.drop_first().len() implies a.drop_first()[i] != from[0] by {
            assert(a.drop_first()[i] == a[i + 1]);
        }
        lemma_replaced_behind(a.drop_first(), b, from, to);
        assert(a + replaced(b, from, to) =~= seq![a[0]] + (a.drop_first() + replaced(
            b,
            from,
            to,
        )));
    }
}

/// Replacing takes a pattern at the front, and goes on behind it.
pub proof fn lemma_replaced_front(b: Seq<char>, from: Seq<char>, to: Seq<char>)
    requires
        from.len() > 0,
    ensures
        replaced(from + b, from, to) == to + replaced(b, from, to),
{
    let s = from + b;
    assert(s.take(from.len() as int) =~= from);
    assert(from.is_prefix_of(s));
    assert(s.skip(from.len() as int) =~= b);
}

/// What is left after trimming the start was there before.
proof fn lemma_trim_start_inside(s: Seq<char>, c: char)
    requires
        trim_start(s).contains(c),
    ensures
        s.contains(c),
    decreases s.len(),
{
    if s.len() > 0 && is_whitespace(s[0]) {
        let rest = s.drop_first();
        lemma_trim_start_inside(rest, c);
        let i = choose|i: int| 0 <= i < rest.len() && rest[i] == c;
        assert(s[i + 1] == c);
    }
}

/// What is left after trimming the end was there before.
proof fn lemma_trim_end_inside(s: Seq<char>, c: char)
    requires
        trim_end(s).contains(c),
    ensures
        s.contains(c),
    decreases s.len(),
{
    if s.len() > 0 && is_whitespace(s.last()) {
        let rest = s.drop_last();
        lemma_trim_end_inside(rest, c);
        let i = choose|i: int| 0 <= i < rest.len() && rest[i] == c;
        assert(s[i] == c);
    }
}

/// What is left after trimming was there before.
pub proof fn lemma_trimmed_inside(s: Seq<char>, c: char)
    requires
        trimmed(s).contains(c),
    ensures
        s.contains(c),
{
    lemma_trim_end_inside(trim_start(s), c);
    lemma_trim_start_inside(s, c);
}

/// Trimming takes whitespace off both ends, all of it, and nothing else.
pub proof fn trimming_takes_off_the_whitespace_around(s: Seq<char>)
    ensures
        exists|a: int, b: int|
            {
                &&& 0 <= a <= b <= s.len()
                &&& trimmed(s) == #[trigger] s.subrange(a, b)
                &&& forall|k: int| 0 <= k < a || b <= k < s.len() ==> is_whitespace(#[trigger] s[k])
                &&& a < b ==> !is_whitespace(s[a]) && !is_whitespace(s[b - 1])
            },
{
    let t = trim_start(s);
    let a = lemma_trim_start_from(s);
    let n = lemma_trim_end_to(t);
    let b = a + n;
    assert(trimmed(s) =~= s.subrange(a, b));
    assert forall|k: int| 0 <= k < a || b <= k < s.len() implies is_whitespace(
        #[trigger] s[k],
    ) by {
        if b <= k {
            assert(t[k - a] == s[k]);
        }
    }
    if a < b {
        assert(t[0] == s[a]);
        assert(t[n - 1] == s[b - 1]);
    }
}

/// Where the text starts once the whitespace in front is gone.
proof fn lemma_trim_start_from(s: Seq<char>) -> (a: int)
    ensures
        0 <= a <= s.len(),
        trim_start(s) == s.skip(a),
        forall|k: int| 0 <= k < a ==> is_whitespace(#[trigger] s[k]),
        a < s.len() ==> !is_whitespace(s[a]),
    decreases s.len(),
{
    if s.len() > 0 && is_whitespace(s[0]) {
        let rest = s.drop_first();
        let a = lemma_trim_start_from(rest);
        assert(rest.skip(a) =~= s.skip(a + 1));
        assert forall|k: int| 0 <= k < a + 1 implies is_whitespace(#[trigger] s[k]) by {
            if k > 0 {
                assert(s[k] == rest[k - 1]);
            }
        }
        if a + 1 < s.len() {
            assert(s[a + 1] == rest[a]);
        }
        a + 1
    } else {
        assert(s.skip(0) =~= s);
        0
    }
}

/// Where the text ends once the whitespace behind is gone.
proof fn lemma_trim_end_to(s: Seq<char>) -> (n: int)
    ensures
        0 <= n <= s.len(),
        trim_end(s) == s.take(n),
        forall|k: int| n <= k < s.len() ==> is_whitespace(#[trigger] s[k]),
        n > 0 ==> !is_whitespace(s[n - 1]),
    decreases s.len(),
{
    if s.len() > 0 && is_whitespace(s.last()) {
        let rest = s.drop_last();
        let n = lemma_trim_end_to(rest);
        assert(rest.take(n) =~= s.take(n));
        assert forall|k: int| n <= k < s.len() implies is_whitespace(#[trigger] s[k]) by {
            if k < rest.len() {
                assert(s[k] == rest[k]);
            }
        }
        n
    } else {
        assert(s.take(s.len() as int) =~= s);
        s.len() as int
    }
}

/// Taking a character off the start takes it off as often as it stands there, and nothing else.
pub proof fn leading_characters_are_all_taken_off(s: Seq<char>, c: char) -> (a: int)
    ensures
        0 <= a <= s.len(),
        without_leading(s, c) == s.skip(a),
        forall|k: int| 0 <= k < a ==> #[trigger] s[k] == c,
        a < s.len() ==> s[a] != c,
    decreases s.len(),
{
    if s.len() > 0 && s[0] == c {
        let rest = s.drop_first();
        let a = leading_characters_are_all_taken_off(rest, c);
        assert(rest.skip(a) =~= s.skip(a + 1));
        assert forall|k: int| 0 <= k < a + 1 implies #[trigger] s[k] == c by {
            if k > 0 {
                assert(s[k] == rest[k - 1]);
            }
        }
        if a + 1 < s.len() {
            assert(s[a + 1] == rest[a]);
        }
        a + 1
    } else {
        assert(s.skip(0) =~= s);
        0
    }
}

/// Taking a character off the end takes it off as often as it stands there, and nothing else.
pub proof fn trailing_characters_are_all_taken_off(s: Seq<char>, c: char) -> (n: int)
    ensures
        0 <= n <= s.len(),
        without_trailing(s, c) == s.take(n),
        forall|k: int| n <= k < s.len() ==> #[trigger] s[k] == c,
        n > 0 ==> s[n - 1] != c,
    decreases s.len(),
{
    if s.len() > 0 && s.last() == c {
        let rest = s.drop_last();
        let n = trailing_characters_are_all_taken_off(rest, c);
        assert(rest.take(n) =~= s.take(n));
        assert forall|k: int| n <= k < s.len() implies #[trigger] s[k] == c by {
            if k < rest.len() {
                assert(s[k] == rest[k]);
            }
        }
        n
    } else {
        assert(s.take(s.len() as int) =~= s);
        s.len() as int
    }
}

/// Every suffix is taken off, one more changes nothing, and a text without one stays as it is.
pub proof fn suffixes_are_all_taken_off(s: Seq<char>, suffix: Seq<char>)
    requires
        suffix.len() > 0,
    ensures
        !suffix.is_suffix_of(without_suffixes(s, suffix)),
        without_suffixes(s, suffix).is_prefix_of(s),
        !suffix.is_suffix_of(s) ==> without_suffixes(s, suffix) == s,
        without_suffixes(s + suffix, suffix) == without_suffixes(s, suffix),
    decreases s.len(),
{
    if suffix.is_suffix_of(s) {
        let rest = s.take(s.len() - suffix.len());
        suffixes_are_all_taken_off(rest, suffix);
        let r = without_suffixes(rest, suffix);
        assert(s.take(r.len() as int) =~= rest.take(r.len() as int));
    } else {
        assert(s.take(s.len() as int) =~= s);
    }
    let longer = s + suffix;
    assert(longer.skip(longer.len() - suffix.len()) =~= suffix);
    assert(suffix.is_suffix_of(longer));
    assert(longer.take(longer.len() - suffix.len()) =~= s);
}

/// Two lists of parts are joined by joining what each is joined to; one part is joined to itself,
/// and none to nothing.
pub proof fn joining_goes_part_by_part(a: Seq<Seq<char>>, b: Seq<Seq<char>>, separator: Seq<char>)
    ensures
        joined(Seq::empty(), separator) == Seq::<char>::empty(),
        forall|part: Seq<char>| #[trigger] joined(seq![part], separator) == part,
        a.len() > 0 && b.len() > 0 ==> joined(a + b, separator) == joined(a, separator) + separator
            + joined(b, separator),
    decreases b.len(),
{
    if a.len() > 0 && b.len() > 0 {
        let all = a + b;
        assert(all.drop_last() =~= a + b.drop_last());
        assert(all.last() == b.last());
        if b.len() == 1 {
            assert(all.drop_last() =~= a);
        } else {
            joining_goes_part_by_part(a, b.drop_last(), separator);
            assert(joined(all, separator) =~= joined(a, separator) + separator + (joined(
                b.drop_last(),
                separator,
            ) + separator + b.last()));
        }
    }
}

/// Every part stands in what the parts are joined to, behind those before it.
pub proof fn every_part_is_joined(parts: Seq<Seq<char>>, separator: Seq<char>, i: int)
    requires
        0 <= i < parts.len(),
    ensures
        exists|a: Seq<char>, b: Seq<char>| joined(parts, separator) == #[trigger] (a + parts[i] + b),
{
    let none = Seq::<char>::empty();
    let head = parts.take(i);
    let tail = parts.skip(i + 1);
    let one = seq![parts[i]];
    joining_goes_part_by_part(one, tail, separator);
    assert(joined(one, separator) == parts[i]);
    let b = if tail.len() > 0 {
        separator + joined(tail, separator)
    } else {
        none
    };
    assert(joined(one + tail, separator) =~= parts[i] + b) by {
        if tail.len() == 0 {
            assert(one + tail =~= one);
        }
    }
    joining_goes_part_by_part(head, one + tail, separator);
    assert(parts =~= head + (one + tail));
    let a = if head.len() > 0 {
        joined(head, separator) + separator
    } else {
        none
    };
    assert(joined(parts, separator) =~= a + parts[i] + b) by {
        if head.len() == 0 {
            assert(parts =~= one + tail);
        }
    }
}

/// The pieces of a text hold no separator, and joined with it they are the text again: no piece is
/// lost, empty ones included.
pub proof fn join_undoes_split(s: Seq<char>, c: char)
    ensures
        pieces(s, c).len() > 0,
        forall|i: int| 0 <= i < pieces(s, c).len() ==> lacks(#[trigger] pieces(s, c)[i], c),
        joined(pieces(s, c), seq![c]) == s,
    decreases s.len(),
{
    lemma_first_index(s, c);
    let all = pieces(s, c);
    if first_index(s, c) >= s.len() {
        assert(all[0] == s);
        assert(lacks(s, c));
    } else {
        let head = before(s, c);
        let tail = after(s, c);
        let rest = pieces(tail, c);
        join_undoes_split(tail, c);
        assert(lacks(head, c));
        assert forall|i: int| 0 <= i < all.len() implies lacks(#[trigger] all[i], c) by {
            if i > 0 {
                assert(all[i] == rest[i - 1]);
            }
        }
        joining_goes_part_by_part(seq![head], rest, seq![c]);
        assert(joined(seq![head], seq![c]) == head);
        assert(head + seq![c] + tail =~= s);
    }
}

/// What stands before the first separator has none, and with the separator and what stands behind
/// it is the whole text.
pub proof fn the_first_separator_splits(a: Seq<char>, c: char, b: Seq<char>)
    requires
        lacks(a, c),
    ensures
        first_index(a + seq![c] + b, c) == a.len(),
        before(a + seq![c] + b, c) == a,
        after(a + seq![c] + b, c) == b,
{
    let s = a + seq![c] + b;
    lemma_first_index_unique(s, c, a.len() as int);
    assert(before(s, c) =~= a);
    assert(after(s, c) =~= b);
}

/// The first place at which the pattern stands is where it is replaced; what is before it stays,
/// and replacing goes on behind it, or stops if it is to be replaced once.
pub proof fn the_first_occurrence_is_replaced(
    a: Seq<char>,
    from: Seq<char>,
    b: Seq<char>,
    to: Seq<char>,
)
    requires
        from.len() > 0,
        forall|k: int| 0 <= k < a.len() ==> !from.is_prefix_of(#[trigger] (a + from + b).skip(k)),
    ensures
        replaced(a + from + b, from, to) == a + to + replaced(b, from, to),
        replaced_once(a + from + b, from, to) == a + to + b,
    decreases a.len(),
{
    let s = a + from + b;
    if a.len() == 0 {
        assert(s =~= from + b);
        lemma_replaced_front(b, from, to);
        assert((from + b).take(from.len() as int) =~= from);
        assert(s.skip(from.len() as int) =~= b);
        assert(a + to + replaced(b, from, to) =~= to + replaced(b, from, to));
        assert(a + to + b =~= to + b);
    } else {
        let rest = a.drop_first();
        let t = rest + from + b;
        assert(s.skip(0) =~= s);
        assert(!from.is_prefix_of(s));
        assert(s.drop_first() =~= t);
        assert forall|k: int| 0 <= k < rest.len() implies !from.is_prefix_of(
            #[trigger] t.skip(k),
        ) by {
            assert(t.skip(k) =~= s.skip(k + 1));
        }
        the_first_occurrence_is_replaced(rest, from, b, to);
        assert(replaced(s, from, to) =~= a + to + replaced(b, from, to));
        assert(replaced_once(s, from, to) =~= a + to + b);
    }
}

/// A text in which the pattern stands nowhere is left as it is.
pub proof fn without_an_occurrence_nothing_is_replaced(
    s: Seq<char>,
    from: Seq<char>,
    to: Seq<char>,
)
    requires
        from.len() > 0,
        forall|k: int| 0 <= k < s.len() ==> !from.is_prefix_of(#[trigger] s.skip(k)),
    ensures
        replaced(s, from, to) == s,
        replaced_once(s, from, to) == s,
    decreases s.len(),
{
    if s.len() > 0 {
        let rest = s.drop_first();
        assert(s.skip(0) =~= s);
        assert(!from.is_prefix_of(s));
        assert forall|k: int| 0 <= k < rest.len() implies !from.is_prefix_of(
            #[trigger] rest.skip(k),
        ) by {
            assert(rest.skip(k) =~= s.skip(k + 1));
        }
        without_an_occurrence_nothing_is_replaced(rest, from, to);
        assert(seq![s[0]] + rest =~= s);
    }
}

/// A text comes before another exactly if it is a shorter start of it, or has the smaller character
/// at the first place where they differ.
pub proof fn the_first_difference_decides(a: Seq<char>, b: Seq<char>)
    ensures
        text_less(a, b) <==> (a.len() < b.len() && a.is_prefix_of(b)) || exists|k: int|
            {
                &&& 0 <= k < a.len()
                &&& k < b.len()
                &&& #[trigger] a.take(k) == b.take(k)
                &&& a[k] < b[k]
            },
    decreases a.len(),
{
    if a.len() == 0 {
        assert(b.take(0) =~= a);
    } else if b.len() > 0 {
        let (x, y) = (a.drop_first(), b.drop_first());
        the_first_difference_decides(x, y);
        if a[0] == b[0] {
            assert forall|k: int| 0 <= k <= x.len() && k <= y.len() implies (#[trigger] x.take(k)
                == y.take(k) <==> a.take(k + 1) == b.take(k + 1)) by {
                assert(a.take(k + 1) =~= seq![a[0]] + x.take(k));
                assert(b.take(k + 1) =~= seq![b[0]] + y.take(k));
                assert(a.take(k + 1).drop_first() =~= x.take(k));
                assert(b.take(k + 1).drop_first() =~= y.take(k));
            }
            if x.len() < y.len() {
                assert(x.take(x.len() as int) =~= x);
                assert(a.take(a.len() as int) =~= a);
            }
            if exists|k: int|
                0 <= k < x.len() && k < y.len() && #[trigger] x.take(k) == y.take(k) && x[k] < y[k] {
                let k = choose|k: int|
                    0 <= k < x.len() && k < y.len() && #[trigger] x.take(k) == y.take(k) && x[k]
                        < y[k];
                assert(a.take(k + 1) == b.take(k + 1));
            }
            if exists|k: int|
                0 <= k < a.len() && k < b.len() && #[trigger] a.take(k) == b.take(k) && a[k] < b[k] {
                let k = choose|k: int|
                    0 <= k < a.len() && k < b.len() && #[trigger] a.take(k) == b.take(k) && a[k]
                        < b[k];
                assert(k > 0);
                assert(x.take(k - 1) == y.take(k - 1));
                assert(x[k - 1] < y[k - 1]);
            }
        } else {
            if a.is_prefix_of(b) {
                assert(b.take(a.len() as int)[0] == a[0]);
            }
            assert(a.take(0) =~= b.take(0));
            assert forall|k: int|
                0 < k < a.len() && k < b.len() implies #[trigger] a.take(k) != b.take(k) by {
                assert(a.take(k)[0] != b.take(k)[0]);
            }
        }
    }
}

/// A number is written without a zero in front, unless it is zero.
pub proof fn numbers_have_no_leading_zero(n: nat)
    ensures
        n > 0 ==> decimal(n)[0] != '0',
        n == 0 ==> decimal(n) == seq!['0'],
    decreases n,
{
    if n >= 10 {
        numbers_have_no_leading_zero(n / 10);
        lemma_decimal_digits(n / 10);
    }
}

/// Whitespace around a text that starts and ends with something else is what trimming takes off.
pub proof fn lemma_trimmed_around(a: Seq<char>, s: Seq<char>, b: Seq<char>)
    requires
        forall|i: int| 0 <= i < a.len() ==> is_whitespace(#[trigger] a[i]),
        forall|i: int| 0 <= i < b.len() ==> is_whitespace(#[trigger] b[i]),
        s.len() > 0,
        !is_whitespace(s[0]),
        !is_whitespace(s.last()),
    ensures
        trimmed(a + s + b) == s,
{
    let all = a + s + b;
    trimming_takes_off_the_whitespace_around(all);
    let (x, y) = choose|x: int, y: int|
        {
            &&& 0 <= x <= y <= all.len()
            &&& trimmed(all) == #[trigger] all.subrange(x, y)
            &&& forall|k: int| 0 <= k < x || y <= k < all.len() ==> is_whitespace(#[trigger] all[k])
            &&& x < y ==> !is_whitespace(all[x]) && !is_whitespace(all[y - 1])
        };
    let (m, n) = (a.len() as int, (a.len() + s.len()) as int);
    assert(all[m] == s[0]);
    assert(all[n - 1] == s.last());
    assert(x <= m) by {
        if m < x {
            assert(is_whitespace(all[m]));
        }
    }
    assert(n <= y) by {
        if y < n {
            assert(is_whitespace(all[n - 1]));
        }
    }
    assert(x == m) by {
        if x < m {
            assert(all[x] == a[x]);
        }
    }
    assert(y == n) by {
        if n < y {
            assert(all[y - 1] == b[y - 1 - n]);
        }
    }
    assert(all.subrange(m, n) =~= s);
}

/// The ASCII letters and digits, by their codes.
pub proof fn letters_and_digits_by_code(c: char)
    ensures
        is_alphanumeric(c) <==> {
            let n = c as int;
            48 <= n <= 57 || 65 <= n <= 90 || 97 <= n <= 122
        },
        is_alphanumeric(c) ==> !is_whitespace(c),
{
}

/// What stands in a part of a text stands in the text.
pub proof fn lemma_inside(whole: Seq<char>, part: Seq<char>, inner: Seq<char>)
    requires
        exists|a: Seq<char>, b: Seq<char>| whole == #[trigger] (a + part + b),
        exists|a: Seq<char>, b: Seq<char>| part == #[trigger] (a + inner + b),
    ensures
        exists|a: Seq<char>, b: Seq<char>| whole == #[trigger] (a + inner + b),
{
    let (a, b) = choose|a: Seq<char>, b: Seq<char>| whole == #[trigger] (a + part + b);
    let (c, d) = choose|a: Seq<char>, b: Seq<char>| part == #[trigger] (a + inner + b);
    assert(whole =~= (a + c) + inner + (d + b));
}

/// The whitespace, by its codes.
pub proof fn whitespace_by_code(c: char)
    ensures
        is_whitespace(c) <==> {
            let n = c as int;
            9 <= n <= 13 || n == 32 || n == 133 || n == 160 || n == 5760 || 8192 <= n <= 8202 || n
                == 8232 || n == 8233 || n == 8239 || n == 8287 || n == 12288
        },
{
}

} // verus!
