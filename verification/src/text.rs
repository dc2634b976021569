//! Characters and strings, seen as sequences of characters.

use vstd::prelude::*;

verus! {

/// `String::push` appends one character at the end.
pub assume_specification[ String::push ](s: &mut String, c: char)
    ensures
        final(s)@ == old(s)@.push(c),
;

/// The characters with the Unicode property White_Space.
pub open spec fn white_space(c: char) -> bool {
    let p = c as u32;
    ||| 0x09 <= p <= 0x0d
    ||| p == 0x20
    ||| p == 0x85
    ||| p == 0xa0
    ||| p == 0x1680
    ||| 0x2000 <= p <= 0x200a
    ||| 0x2028 <= p <= 0x2029
    ||| p == 0x202f
    ||| p == 0x205f
    ||| p == 0x3000
}

/// Whether `c` is white space.
pub fn is_white_space(c: char) -> (r: bool)
    ensures
        r == white_space(c),
{
    let p: u32 = c as u32;
    (0x09 <= p && p <= 0x0d) || p == 0x20 || p == 0x85 || p == 0xa0 || p == 0x1680 || (0x2000 <= p
        && p <= 0x200a) || (0x2028 <= p && p <= 0x2029) || p == 0x202f || p == 0x205f || p
        == 0x3000
}

/// The control characters: the two blocks U+0000 to U+001F and U+007F to U+009F.
pub open spec fn control(c: char) -> bool {
    let p = c as u32;
    p <= 0x1f || 0x7f <= p <= 0x9f
}

/// Whether `c` is a control character.
pub fn is_control(c: char) -> (r: bool)
    ensures
        r == control(c),
{
    let p: u32 = c as u32;
    p <= 0x1f || (0x7f <= p && p <= 0x9f)
}

/// An ASCII capital letter as its small letter; any other character as it is.
pub open spec fn lower(c: char) -> char {
    if 'A' <= c <= 'Z' {
        (c as u32 + 32) as char
    } else {
        c
    }
}

/// The small form of an ASCII letter.
pub fn lower_char(c: char) -> (r: char)
    ensures
        r == lower(c),
{
    if 'A' <= c && c <= 'Z' {
        (c as u8 + 32) as char
    } else {
        c
    }
}

/// The characters of a string in a vector.
pub fn chars_of(s: &str) -> (r: Vec<char>)
    ensures
        r@ == s@,
{
    let mut out: Vec<char> = Vec::new();
    for c in it: s.chars()
        invariant
            out@ == it.seq().take(it.index() as int),
            it.seq() == s@,
    {
        out.push(c);
    }
    out
}

/// The characters from `from` up to `to` as a string.
pub fn text_of(chars: &Vec<char>, from: usize, to: usize) -> (r: String)
    requires
        from <= to <= chars.len(),
    ensures
        r@ == chars@.subrange(from as int, to as int),
{
    let mut out = String::new();
    let mut i: usize = from;
    while i < to
        invariant
            from <= i <= to <= chars.len(),
            out@ == chars@.subrange(from as int, i as int),
        decreases to - i,
    {
        out.push(chars[i]);
        i = i + 1;
    }
    out
}

/// `s` without the white space at its start.
pub open spec fn trim_start(s: Seq<char>) -> Seq<char>
    decreases s.len(),
{
    if s.len() > 0 && white_space(s[0]) {
        trim_start(s.subrange(1, s.len() as int))
    } else {
        s
    }
}

/// `s` without the white space at its end.
pub open spec fn trim_end(s: Seq<char>) -> Seq<char>
    decreases s.len(),
{
    if s.len() > 0 && white_space(s.last()) {
        trim_end(s.drop_last())
    } else {
        s
    }
}

/// `s` without the white space at its start and at its end.
pub open spec fn trim(s: Seq<char>) -> Seq<char> {
    trim_end(trim_start(s))
}

/// The part of `chars` that `trim` leaves, as the positions of its two ends.
pub fn trim_bounds(chars: &Vec<char>) -> (r: (usize, usize))
    ensures
        r.0 <= r.1 <= chars.len(),
        chars@.subrange(r.0 as int, r.1 as int) == trim(chars@),
{
    let n: usize = chars.len();
    let mut from: usize = 0;
    assert(chars@.subrange(0, n as int) == chars@);
    while from < n && is_white_space(chars[from])
        invariant
            from <= n == chars.len(),
            trim_start(chars@) == trim_start(chars@.subrange(from as int, n as int)),
        decreases n - from,
    {
        assert(chars@.subrange(from as int, n as int).subrange(1, (n - from) as int)
            == chars@.subrange(from + 1, n as int));
        from = from + 1;
    }
    assert(trim_start(chars@) == chars@.subrange(from as int, n as int));
    let mut to: usize = n;
    while to > from && is_white_space(chars[to - 1])
        invariant
            from <= to <= n == chars.len(),
            trim(chars@) == trim_end(chars@.subrange(from as int, to as int)),
        decreases to,
    {
        assert(chars@.subrange(from as int, to as int).drop_last() == chars@.subrange(
            from as int,
            to - 1,
        ));
        to = to - 1;
    }
    (from, to)
}

/// The text without the white space around it.
pub fn trim_text(s: &str) -> (r: String)
    ensures
        r@ == trim(s@),
{
    let chars = chars_of(s);
    let (from, to) = trim_bounds(&chars);
    text_of(&chars, from, to)
}

/// Every ASCII letter of `s` in its small form.
pub open spec fn lowered(s: Seq<char>) -> Seq<char> {
    Seq::new(s.len(), |i: int| lower(s[i]))
}

/// The text with its ASCII letters in their small form.
pub fn lower_text(s: &str) -> (r: String)
    ensures
        r@ == lowered(s@),
{
    let chars = chars_of(s);
    let mut out = String::new();
    let mut i: usize = 0;
    while i < chars.len()
        invariant
            i <= chars.len(),
            chars@ == s@,
            out@ == lowered(s@).subrange(0, i as int),
        decreases chars.len() - i,
    {
        out.push(lower_char(chars[i]));
        i = i + 1;
    }
    assert(lowered(s@).subrange(0, s@.len() as int) == lowered(s@));
    out
}

/// Whether two vectors hold the same characters.
pub fn same_chars(a: &Vec<char>, b: &Vec<char>) -> (r: bool)
    ensures
        r == (a@ == b@),
{
    if a.len() != b.len() {
        return false;
    }
    let mut i: usize = 0;
    while i < a.len()
        invariant
            i <= a.len() == b.len(),
            forall|k: int| 0 <= k < i ==> a[k] == b[k],
        decreases a.len() - i,
    {
        if a[i] != b[i] {
            return false;
        }
        i = i + 1;
    }
    assert(a@ == b@);
    true
}

/// Whether two texts are the same.
pub fn same_text(a: &str, b: &str) -> (r: bool)
    ensures
        r == (a@ == b@),
{
    same_chars(&chars_of(a), &chars_of(b))
}

/// Whether two texts are the same but for the case of their ASCII letters.
pub fn same_ignoring_case(a: &str, b: &str) -> (r: bool)
    ensures
        r == (lowered(a@) == lowered(b@)),
{
    same_text(lower_text(a).as_str(), lower_text(b).as_str())
}

/// `part` stands in `s` at position `i`.
pub open spec fn occurs_at(s: Seq<char>, part: Seq<char>, i: int) -> bool {
    0 <= i && i + part.len() <= s.len() && s.subrange(i, i + part.len()) == part
}

/// `part` stands somewhere in `s`.
pub open spec fn contains(s: Seq<char>, part: Seq<char>) -> bool {
    exists|i: int| occurs_at(s, part, i)
}

/// Whether `part` stands in `s` at position `i`.
pub fn stands_at(s: &Vec<char>, part: &Vec<char>, i: usize) -> (r: bool)
    ensures
        r == occurs_at(s@, part@, i as int),
{
    if i > s.len() || part.len() > s.len() - i {
        return false;
    }
    let mut k: usize = 0;
    while k < part.len()
        invariant
            k <= part.len(),
            i + part.len() <= s.len(),
            forall|j: int| 0 <= j < k ==> s[i + j] == part[j],
        decreases part.len() - k,
    {
        if s[i + k] != part[k] {
            assert(s@.subrange(i as int, i + part.len())[k as int] != part@[k as int]);
            return false;
        }
        k = k + 1;
    }
    assert(s@.subrange(i as int, i + part.len()) == part@);
    true
}

/// The first position at which `part` stands in `s`, if there is one.
pub fn find_in(s: &Vec<char>, part: &Vec<char>) -> (r: Option<usize>)
    ensures
        match r {
            Some(i) => occurs_at(s@, part@, i as int) && forall|j: int|
                0 <= j < i ==> !occurs_at(s@, part@, j),
            None => !contains(s@, part@),
        },
{
    let mut i: usize = 0;
    while i <= s.len() && part.len() <= s.len() - i
        invariant
            i <= s.len(),
            forall|j: int| 0 <= j < i ==> !occurs_at(s@, part@, j),
        decreases s.len() - i,
    {
        if stands_at(s, part, i) {
            return Some(i);
        }
        if i == s.len() {
            return None;
        }
        i = i + 1;
    }
    None
}

/// Whether `part` stands somewhere in `s`.
pub fn contains_text(s: &str, part: &str) -> (r: bool)
    ensures
        r == contains(s@, part@),
{
    find_in(&chars_of(s), &chars_of(part)).is_some()
}

/// The texts of a sequence of strings.
pub open spec fn texts(v: Seq<String>) -> Seq<Seq<char>> {
    Seq::new(v.len(), |i: int| v[i]@)
}

/// The text of a string that may be missing.
pub open spec fn option_text(s: Option<String>) -> Option<Seq<char>> {
    match s {
        Some(s) => Some(s@),
        None => None,
    }
}

/// The number of characters of `s` before the first `c`, or all of them.
pub open spec fn span_before(s: Seq<char>, c: char) -> nat
    decreases s.len(),
{
    if s.len() == 0 || s[0] == c {
        0
    } else {
        1 + span_before(s.subrange(1, s.len() as int), c)
    }
}

/// `span_before` stops at the first `c`: none stands before it, and one stands there
/// unless it has reached the end.
pub proof fn lemma_span_before(s: Seq<char>, c: char)
    ensures
        span_before(s, c) <= s.len(),
        forall|i: int| 0 <= i < span_before(s, c) ==> s[i] != c,
        span_before(s, c) < s.len() ==> s[span_before(s, c) as int] == c,
    decreases s.len(),
{
    if s.len() > 0 && s[0] != c {
        let rest = s.subrange(1, s.len() as int);
        lemma_span_before(rest, c);
        assert forall|i: int| 0 <= i < span_before(s, c) implies s[i] != c by {
            if i > 0 {
                assert(rest[i - 1] == s[i]);
            }
        }
        if span_before(s, c) < s.len() {
            assert(rest[span_before(rest, c) as int] == s[span_before(s, c) as int]);
        }
    }
}

/// The position that the two facts of `lemma_span_before` describe is `span_before`.
pub proof fn lemma_span_before_is(s: Seq<char>, c: char, k: nat)
    requires
        k <= s.len(),
        forall|i: int| 0 <= i < k ==> s[i] != c,
        k < s.len() ==> s[k as int] == c,
    ensures
        span_before(s, c) == k,
{
    lemma_span_before(s, c);
}

/// The number of characters before the first `c`, or of all characters, from `from` on.
pub fn count_before(chars: &Vec<char>, from: usize, c: char) -> (r: usize)
    requires
        from <= chars.len(),
    ensures
        r == span_before(chars@.subrange(from as int, chars.len() as int), c),
        from + r <= chars.len(),
{
    let ghost rest = chars@.subrange(from as int, chars.len() as int);
    let mut k: usize = 0;
    while from + k < chars.len() && chars[from + k] != c
        invariant
            from + k <= chars.len(),
            rest == chars@.subrange(from as int, chars.len() as int),
            forall|i: int| 0 <= i < k ==> rest[i] != c,
        decreases chars.len() - from - k,
    {
        k = k + 1;
    }
    proof {
        lemma_span_before_is(rest, c, k as nat);
    }
    k
}

/// A line without the carriage return that ends it.
pub open spec fn without_return(s: Seq<char>) -> Seq<char> {
    if s.len() > 0 && s.last() == '\r' {
        s.drop_last()
    } else {
        s
    }
}

/// The lines of a text. A line feed, or a carriage return and a line feed, ends a line
/// and is no part of it; at the end of the text it may be missing.
pub open spec fn lines(s: Seq<char>) -> Seq<Seq<char>>
    decreases s.len(),
    via lines_decreases
{
    if s.len() == 0 {
        Seq::empty()
    } else {
        let k = span_before(s, '\n') as int;
        if k == s.len() {
            seq![s]
        } else {
            seq![without_return(s.subrange(0, k))] + lines(s.subrange(k + 1, s.len() as int))
        }
    }
}

#[via_fn]
proof fn lines_decreases(s: Seq<char>) {
    lemma_span_before(s, '\n');
}

/// The lines of a text, as strings.
pub fn lines_of(s: &str) -> (r: Vec<String>)
    ensures
        texts(r@) == lines(s@),
{
    let chars = chars_of(s);
    let n: usize = chars.len();
    let mut out: Vec<String> = Vec::new();
    let mut at: usize = 0;
    assert(chars@.subrange(0, n as int) == s@);
    assert(texts(out@) == Seq::<Seq<char>>::empty());
    while at < n
        invariant
            at <= n == chars.len(),
            chars@ == s@,
            texts(out@) + lines(chars@.subrange(at as int, n as int)) == lines(s@),
        decreases n - at,
    {
        let ghost before = out@;
        let ghost rest = chars@.subrange(at as int, n as int);
        let k: usize = count_before(&chars, at, '\n');
        if at + k == n {
            out.push(text_of(&chars, at, n));
            assert(texts(out@) == texts(before) + seq![rest]);
            assert(chars@.subrange(n as int, n as int) == Seq::<char>::empty());
            at = n;
        } else {
            let to: usize = if k > 0 && chars[at + k - 1] == '\r' {
                at + k - 1
            } else {
                at + k
            };
            out.push(text_of(&chars, at, to));
            assert(rest.subrange(0, k as int) == chars@.subrange(at as int, at + k));
            assert(chars@.subrange(at as int, to as int) == without_return(
                rest.subrange(0, k as int),
            ));
            assert(texts(out@) == texts(before) + seq![without_return(rest.subrange(0, k as int))]);
            assert(rest.subrange(k + 1, rest.len() as int) == chars@.subrange(
                at + k + 1,
                n as int,
            ));
            at = at + k + 1;
        }
    }
    assert(chars@.subrange(n as int, n as int) == Seq::<char>::empty());
    out
}

/// The texts one after the other, with `sep` between each two.
pub open spec fn join(parts: Seq<Seq<char>>, sep: Seq<char>) -> Seq<char>
    decreases parts.len(),
{
    if parts.len() == 0 {
        Seq::empty()
    } else if parts.len() == 1 {
        parts[0]
    } else {
        join(parts.drop_last(), sep) + sep + parts.last()
    }
}

/// The strings one after the other, with `sep` between each two.
pub fn join_texts(parts: &Vec<String>, sep: &str) -> (r: String)
    ensures
        r@ == join(texts(parts@), sep@),
{
    let mut out = String::new();
    let mut i: usize = 0;
    while i < parts.len()
        invariant
            i <= parts.len(),
            out@ == join(texts(parts@).subrange(0, i as int), sep@),
        decreases parts.len() - i,
    {
        let ghost next = texts(parts@).subrange(0, i + 1);
        assert(next.drop_last() == texts(parts@).subrange(0, i as int));
        if i > 0 {
            out.append(sep);
        }
        out.append(parts[i].as_str());
        assert(out@ == join(next, sep@));
        i = i + 1;
    }
    assert(texts(parts@).subrange(0, parts.len() as int) == texts(parts@));
    out
}

/// `join` puts the first text and a separator in front of the others.
proof fn lemma_join_first(parts: Seq<Seq<char>>, sep: Seq<char>)
    requires
        parts.len() > 1,
    ensures
        join(parts, sep) == parts[0] + sep + join(parts.subrange(1, parts.len() as int), sep),
    decreases parts.len(),
{
    let rest = parts.subrange(1, parts.len() as int);
    if parts.len() == 2 {
        assert(join(parts.drop_last(), sep) == parts[0]);
        assert(join(rest, sep) == parts[1]);
    } else {
        let shorter = parts.drop_last();
        lemma_join_first(shorter, sep);
        assert(shorter.subrange(1, shorter.len() as int) == rest.drop_last());
        let middle = join(rest.drop_last(), sep);
        assert(join(rest, sep) == middle + sep + parts.last());
        assert(join(parts, sep) == parts[0] + sep + middle + sep + parts.last());
        assert(join(parts, sep) == parts[0] + sep + (middle + sep + parts.last()));
    }
}

/// A text that can be a line: no line feed is in it, and no carriage return ends it.
pub open spec fn line_like(s: Seq<char>) -> bool {
    !s.contains('\n') && (s.len() > 0 ==> s.last() != '\r')
}

/// Lines that are joined by line feeds are read back, if the last of them is not empty.
pub proof fn law_lines_read_back(parts: Seq<Seq<char>>)
    requires
        parts.len() > 0,
        parts.last().len() > 0,
        forall|i: int| 0 <= i < parts.len() ==> line_like(#[trigger] parts[i]),
    ensures
        lines(join(parts, "\n"@)) == parts,
    decreases parts.len(),
{
    reveal_strlit("\n");
    let s = join(parts, "\n"@);
    let first = parts[0];
    assert(line_like(first));
    assert forall|i: int| 0 <= i < first.len() implies first[i] != '\n' by {
        assert(first.contains(first[i]));
    }
    if parts.len() == 1 {
        lemma_span_before_is(s, '\n', s.len());
        assert(parts == seq![s]);
    } else {
        let rest = parts.subrange(1, parts.len() as int);
        let k = first.len();
        lemma_join_first(parts, "\n"@);
        assert forall|i: int| 0 <= i < k implies s[i] != '\n' by {
            assert(s[i] == first[i]);
        }
        lemma_span_before_is(s, '\n', k);
        assert(s.subrange(0, k as int) == first);
        assert(s.subrange(k as int + 1, s.len() as int) == join(rest, "\n"@));
        assert forall|i: int| 0 <= i < rest.len() implies line_like(#[trigger] rest[i]) by {
            assert(rest[i] == parts[i + 1]);
        }
        law_lines_read_back(rest);
        assert(parts == seq![first] + rest);
    }
}

/// The decimal digits of a number.
pub open spec fn digits(n: nat) -> Seq<char>
    decreases n,
{
    if n < 10 {
        seq![('0' as u32 + n) as char]
    } else {
        digits(n / 10).push(('0' as u32 + n % 10) as char)
    }
}

/// A number in decimal digits.
pub fn decimal(n: usize) -> (r: String)
    ensures
        r@ == digits(n as nat),
    decreases n,
{
    let digit: u8 = (n % 10) as u8;
    let mut out = if n < 10 {
        String::new()
    } else {
        decimal(n / 10)
    };
    out.push((48 + digit) as char);
    out
}

/// `a` stands before `b` in the order of the code points of their characters.
pub open spec fn text_before(a: Seq<char>, b: Seq<char>) -> bool
    decreases b.len(),
{
    if b.len() == 0 {
        false
    } else if a.len() == 0 {
        true
    } else if a[0] != b[0] {
        a[0] < b[0]
    } else {
        text_before(a.subrange(1, a.len() as int), b.subrange(1, b.len() as int))
    }
}

/// Whether `a` stands before `b` in the order of the code points of their characters.
pub fn is_text_before(a: &str, b: &str) -> (r: bool)
    ensures
        r == text_before(a@, b@),
{
    let x = chars_of(a);
    let y = chars_of(b);
    let mut i: usize = 0;
    assert(x@.subrange(0, x.len() as int) == a@);
    assert(y@.subrange(0, y.len() as int) == b@);
    while i < x.len() && i < y.len()
        invariant
            i <= x.len(),
            i <= y.len(),
            text_before(a@, b@) == text_before(
                x@.subrange(i as int, x.len() as int),
                y@.subrange(i as int, y.len() as int),
            ),
        decreases x.len() - i,
    {
        let ghost p = x@.subrange(i as int, x.len() as int);
        let ghost q = y@.subrange(i as int, y.len() as int);
        assert(p[0] == x[i as int] && q[0] == y[i as int]);
        if x[i] != y[i] {
            return x[i] < y[i];
        }
        assert(p.subrange(1, p.len() as int) == x@.subrange(i + 1, x.len() as int));
        assert(q.subrange(1, q.len() as int) == y@.subrange(i + 1, y.len() as int));
        i = i + 1;
    }
    i < y.len()
}

/// The order of texts is strict and total: no text stands before itself, of two different
/// texts exactly one stands before the other, and what stands before a text stands before
/// every text behind it.
pub proof fn law_text_order(a: Seq<char>, b: Seq<char>, c: Seq<char>)
    ensures
        !text_before(a, a),
        a != b ==> text_before(a, b) != text_before(b, a),
        text_before(a, b) && text_before(b, c) ==> text_before(a, c),
    decreases a.len() + b.len() + c.len(),
{
    let a1 = a.subrange(1, a.len() as int);
    let b1 = b.subrange(1, b.len() as int);
    let c1 = c.subrange(1, c.len() as int);
    if a.len() > 0 && b.len() > 0 {
        assert(a == seq![a[0]] + a1);
        assert(b == seq![b[0]] + b1);
    } else if a.len() == 0 && b.len() == 0 {
        assert(a == b);
    }
    if a.len() > 0 {
        law_text_order(a1, if b.len() > 0 {
            b1
        } else {
            b
        }, if c.len() > 0 {
            c1
        } else {
            c
        });
    }
}

/// `part` stands in `s` at `i` and nowhere before.
pub open spec fn first_at(s: Seq<char>, part: Seq<char>, i: int) -> bool {
    occurs_at(s, part, i) && forall|j: int| 0 <= j < i ==> !occurs_at(s, part, j)
}

/// `s` with `by` in place of the first `part` that stands in it.
pub open spec fn with_first_replaced(s: Seq<char>, part: Seq<char>, by: Seq<char>) -> Seq<char> {
    if contains(s, part) {
        let i = choose|i: int| first_at(s, part, i);
        s.subrange(0, i) + by + s.subrange(i + part.len(), s.len() as int)
    } else {
        s
    }
}

/// `with_first_replaced` at the place where `part` first stands.
pub proof fn lemma_with_first_replaced(s: Seq<char>, part: Seq<char>, by: Seq<char>, i: int)
    requires
        first_at(s, part, i),
    ensures
        with_first_replaced(s, part, by) == s.subrange(0, i) + by + s.subrange(
            i + part.len(),
            s.len() as int,
        ),
{
    let k = choose|k: int| first_at(s, part, k);
    assert(first_at(s, part, k));
    if k < i {
        assert(!occurs_at(s, part, k));
    } else if i < k {
        assert(!occurs_at(s, part, i));
    }
}

/// The text with `by` in place of the first `part` that stands in it.
pub fn replace_first(s: &str, part: &str, by: &str) -> (r: String)
    ensures
        r@ == with_first_replaced(s@, part@, by@),
{
    let chars = chars_of(s);
    let wanted = chars_of(part);
    match find_in(&chars, &wanted) {
        Some(i) => {
            proof {
                assert(first_at(s@, part@, i as int));
                lemma_with_first_replaced(s@, part@, by@, i as int);
            }
            assert(i + wanted.len() <= chars.len());
            let mut out = text_of(&chars, 0, i);
            out.append(by);
            out.append(text_of(&chars, i + wanted.len(), chars.len()).as_str());
            out
        },
        None => s.to_owned(),
    }
}

/// Small letters stay as they are.
pub proof fn law_lowered_twice(s: Seq<char>)
    ensures
        lowered(lowered(s)) == lowered(s),
{
    assert(lowered(lowered(s)) =~= lowered(s));
}

/// It makes no difference whether a text is trimmed first or put into small letters first.
pub proof fn law_trim_and_lower(s: Seq<char>)
    ensures
        trim(lowered(s)) == lowered(trim(s)),
{
    lemma_trim_start_lowered(s);
    lemma_trim_end_lowered(trim_start(s));
}

proof fn lemma_trim_start_lowered(s: Seq<char>)
    ensures
        trim_start(lowered(s)) == lowered(trim_start(s)),
    decreases s.len(),
{
    if s.len() > 0 && white_space(s[0]) {
        let rest = s.subrange(1, s.len() as int);
        assert(lowered(s).subrange(1, s.len() as int) =~= lowered(rest));
        lemma_trim_start_lowered(rest);
    }
}

proof fn lemma_trim_end_lowered(s: Seq<char>)
    ensures
        trim_end(lowered(s)) == lowered(trim_end(s)),
    decreases s.len(),
{
    if s.len() > 0 && white_space(s.last()) {
        assert(lowered(s).drop_last() =~= lowered(s.drop_last()));
        lemma_trim_end_lowered(s.drop_last());
    }
}

/// What `trim` leaves is a part of the text that neither starts nor ends with white space,
/// and around it the text holds nothing but white space.
pub proof fn law_trim(s: Seq<char>)
    ensures
        trim(s).len() > 0 ==> !white_space(trim(s)[0]) && !white_space(trim(s).last()),
        exists|from: int, to: int|
            {
                &&& 0 <= from <= to <= s.len()
                &&& trim(s) == #[trigger] s.subrange(from, to)
                &&& forall|i: int|
                    0 <= i < from || to <= i < s.len() ==> white_space(#[trigger] s[i])
            },
{
    lemma_trim_start(s);
    let tail = trim_start(s);
    lemma_trim_end(tail);
    let from = s.len() - tail.len();
    let to = from + trim(s).len();
    assert(trim(s) == s.subrange(from, to));
    assert forall|i: int| 0 <= i < from || to <= i < s.len() implies white_space(
        #[trigger] s[i],
    ) by {
        if to <= i < s.len() {
            assert(tail[i - from] == s[i]);
        }
    }
}

proof fn lemma_trim_start(s: Seq<char>)
    ensures
        trim_start(s).len() <= s.len(),
        trim_start(s) == s.subrange(s.len() - trim_start(s).len(), s.len() as int),
        trim_start(s).len() > 0 ==> !white_space(trim_start(s)[0]),
        forall|i: int|
            0 <= i < s.len() - trim_start(s).len() ==> white_space(#[trigger] s[i]),
    decreases s.len(),
{
    if s.len() > 0 && white_space(s[0]) {
        let rest = s.subrange(1, s.len() as int);
        lemma_trim_start(rest);
        assert forall|i: int| 0 <= i < s.len() - trim_start(s).len() implies white_space(
            #[trigger] s[i],
        ) by {
            if i > 0 {
                assert(rest[i - 1] == s[i]);
            }
        }
    }
}

proof fn lemma_trim_end(s: Seq<char>)
    ensures
        trim_end(s).len() <= s.len(),
        trim_end(s) == s.subrange(0, trim_end(s).len() as int),
        trim_end(s).len() > 0 ==> !white_space(trim_end(s).last()),
        forall|i: int| trim_end(s).len() <= i < s.len() ==> white_space(#[trigger] s[i]),
    decreases s.len(),
{
    if s.len() > 0 && white_space(s.last()) {
        let rest = s.drop_last();
        lemma_trim_end(rest);
        assert forall|i: int| trim_end(s).len() <= i < s.len() implies white_space(
            #[trigger] s[i],
        ) by {
            if i < s.len() - 1 {
                assert(rest[i] == s[i]);
            }
        }
    }
}

/// What `trim` leaves has no white space at its ends.
pub proof fn lemma_trimmed_ends(s: Seq<char>)
    ensures
        trim(s).len() > 0 ==> !white_space(trim(s)[0]) && !white_space(trim(s).last()),
{
    law_trim(s);
}

/// A text without white space at its ends is left as it is.
pub proof fn lemma_nothing_to_trim(s: Seq<char>)
    requires
        s.len() > 0,
        !white_space(s[0]),
        !white_space(s.last()),
    ensures
        trim(s) == s,
{
}

/// Trimming a text that was trimmed changes nothing.
pub proof fn law_trim_twice(s: Seq<char>)
    ensures
        trim(trim(s)) == trim(s),
{
    law_trim(s);
}

/// Trimming leaves nothing of a text where all of its characters are white space, and of no
/// other one.
pub proof fn law_trim_leaves_nothing(s: Seq<char>)
    ensures
        trim(s).len() == 0 <==> forall|i: int| 0 <= i < s.len() ==> white_space(#[trigger] s[i]),
{
    law_trim(s);
    let (from, to) = choose|from: int, to: int|
        {
            &&& 0 <= from <= to <= s.len()
            &&& trim(s) == #[trigger] s.subrange(from, to)
            &&& forall|i: int| 0 <= i < from || to <= i < s.len() ==> white_space(#[trigger] s[i])
        };
    if trim(s).len() > 0 {
        assert(!white_space(s[from]));
    }
}

/// White space is the tab, the line feed, the vertical tab, the form feed, the carriage
/// return, the space, the next line, and the spaces and separators of Unicode, and nothing
/// else.
pub proof fn law_white_space(c: char)
    ensures
        white_space(c) <==> seq![
            '\t',
            '\n',
            '\x0b',
            '\x0c',
            '\r',
            ' ',
            '\u{85}',
            '\u{a0}',
            '\u{1680}',
            '\u{2000}',
            '\u{2001}',
            '\u{2002}',
            '\u{2003}',
            '\u{2004}',
            '\u{2005}',
            '\u{2006}',
            '\u{2007}',
            '\u{2008}',
            '\u{2009}',
            '\u{200a}',
            '\u{2028}',
            '\u{2029}',
            '\u{202f}',
            '\u{205f}',
            '\u{3000}',
        ].contains(c),
{
    let all = seq![
        '\t',
        '\n',
        '\x0b',
        '\x0c',
        '\r',
        ' ',
        '\u{85}',
        '\u{a0}',
        '\u{1680}',
        '\u{2000}',
        '\u{2001}',
        '\u{2002}',
        '\u{2003}',
        '\u{2004}',
        '\u{2005}',
        '\u{2006}',
        '\u{2007}',
        '\u{2008}',
        '\u{2009}',
        '\u{200a}',
        '\u{2028}',
        '\u{2029}',
        '\u{202f}',
        '\u{205f}',
        '\u{3000}',
    ];
    let p = c as u32 as int;
    if white_space(c) {
        let k = if p <= 0x0d {
            p - 9
        } else if p == 0x20 {
            5
        } else if p == 0x85 {
            6
        } else if p == 0xa0 {
            7
        } else if p == 0x1680 {
            8
        } else if p <= 0x200a {
            p - 0x2000 + 9
        } else if p <= 0x2029 {
            p - 0x2028 + 20
        } else if p == 0x202f {
            22
        } else if p == 0x205f {
            23
        } else {
            24int
        };
        assert(all[k] as u32 == p);
        assert(all[k] == c);
    }
}

/// The control characters are those before the space and those from the delete character to
/// the end of the block that follows ASCII. None of them is a printable ASCII character.
pub proof fn law_control(c: char)
    ensures
        control(c) <==> c < ' ' || ('~' < c && c < '\u{a0}'),
{
}

/// The small form of a character is another one for the 26 capital letters of ASCII only,
/// and then it is the small letter at the same place of the alphabet.
pub proof fn law_lower(c: char)
    ensures
        lower(c) != c <==> 'A' <= c <= 'Z',
        'A' <= c <= 'Z' ==> 'a' <= lower(c) <= 'z' && lower(c) as int - 'a' as int == c as int
            - 'A' as int,
{
}

/// Putting a text into small letters changes each character by itself and keeps its place.
pub proof fn law_lowered(s: Seq<char>, t: Seq<char>, c: char)
    ensures
        lowered(s + t) == lowered(s) + lowered(t),
        lowered(seq![c]) == seq![lower(c)],
        lowered(s).len() == s.len(),
{
    assert(lowered(s + t) =~= lowered(s) + lowered(t));
    assert(lowered(seq![c]) =~= seq![lower(c)]);
}

/// A text holds another one exactly where it can be cut into what stands before it, the
/// other text, and what stands behind it.
pub proof fn law_contains(s: Seq<char>, part: Seq<char>)
    ensures
        contains(s, part) <==> exists|a: Seq<char>, b: Seq<char>| s == #[trigger] (a + part + b),
{
    if contains(s, part) {
        let i = choose|i: int| occurs_at(s, part, i);
        let a = s.subrange(0, i);
        let b = s.subrange(i + part.len(), s.len() as int);
        assert(s == a + s.subrange(i, i + part.len()) + b);
        assert(s == a + part + b);
    }
    if exists|a: Seq<char>, b: Seq<char>| s == #[trigger] (a + part + b) {
        let (a, b) = choose|a: Seq<char>, b: Seq<char>| s == #[trigger] (a + part + b);
        let i = a.len() as int;
        assert(s.subrange(i, i + part.len()) == part);
        assert(occurs_at(s, part, i));
    }
}

/// The first occurrence of a part is replaced, and nothing else: what stands before it, in
/// which it does not start, and what stands behind it stay. A text without the part stays as
/// it is.
pub proof fn law_first_is_replaced(
    s: Seq<char>,
    part: Seq<char>,
    by: Seq<char>,
    a: Seq<char>,
    b: Seq<char>,
)
    ensures
        s == a + part + b && (forall|j: int| 0 <= j < a.len() ==> !#[trigger] occurs_at(s, part, j))
            ==> with_first_replaced(s, part, by) == a + by + b,
        (forall|j: int| !#[trigger] occurs_at(s, part, j)) ==> with_first_replaced(s, part, by) == s,
{
    if s == a + part + b && (forall|j: int|
        0 <= j < a.len() ==> !#[trigger] occurs_at(s, part, j)) {
        let i = a.len() as int;
        assert(s.subrange(i, i + part.len()) == part);
        assert(first_at(s, part, i));
        lemma_with_first_replaced(s, part, by, i);
        assert(s.subrange(0, i) == a);
        assert(s.subrange(i + part.len(), s.len() as int) == b);
    }
}

/// A text without a line feed is one line, if it is not empty. Up to its first line feed a
/// text is one line, without the carriage return before the line feed; what stands behind
/// the line feed are the other lines.
pub proof fn law_lines(first: Seq<char>, rest: Seq<char>)
    requires
        !first.contains('\n'),
    ensures
        lines(Seq::empty()).len() == 0,
        first.len() > 0 ==> lines(first) == seq![first],
        lines(first + seq!['\r', '\n'] + rest) == seq![first] + lines(rest),
        (first.len() == 0 || first.last() != '\r') ==> lines(first + seq!['\n'] + rest) == seq![
            first,
        ] + lines(rest),
{
    assert forall|i: int| 0 <= i < first.len() implies first[i] != '\n' by {
        assert(first.contains(first[i]));
    }
    lemma_span_before_is(first, '\n', first.len());
    let n = first.len() as int;
    let s = first + seq!['\r', '\n'] + rest;
    assert forall|i: int| 0 <= i < n + 1 implies s[i] != '\n' by {
        if i < n {
            assert(s[i] == first[i]);
        }
    }
    lemma_span_before_is(s, '\n', (n + 1) as nat);
    assert(s.subrange(0, n + 1) == first.push('\r'));
    assert(first.push('\r').drop_last() == first);
    assert(s.subrange(n + 2, s.len() as int) == rest);
    let t = first + seq!['\n'] + rest;
    assert forall|i: int| 0 <= i < n implies t[i] != '\n' by {
        assert(t[i] == first[i]);
    }
    lemma_span_before_is(t, '\n', n as nat);
    assert(t.subrange(0, n) == first);
    assert(t.subrange(n + 1, t.len() as int) == rest);
}

/// Nothing is joined to nothing, and one text to itself. Two lists of texts, each of which is
/// joined, give what they give as one list, if a separator stands between them.
pub proof fn law_join(a: Seq<Seq<char>>, b: Seq<Seq<char>>, sep: Seq<char>, one: Seq<char>)
    ensures
        join(Seq::empty(), sep).len() == 0,
        join(seq![one], sep) == one,
        a.len() > 0 && b.len() > 0 ==> join(a + b, sep) == join(a, sep) + sep + join(b, sep),
    decreases b.len(),
{
    if a.len() > 0 && b.len() > 0 {
        let shorter = b.drop_last();
        assert((a + b).drop_last() == a + shorter);
        if shorter.len() > 0 {
            law_join(a, shorter, sep, one);
            assert(join(a, sep) + sep + join(shorter, sep) + sep + b.last() == join(a, sep) + sep + (
            join(shorter, sep) + sep + b.last()));
        } else {
            assert(a + shorter == a);
        }
    }
}

/// The number that decimal digits stand for.
pub open spec fn number(s: Seq<char>) -> int
    decreases s.len(),
{
    if s.len() == 0 {
        0
    } else {
        10 * number(s.drop_last()) + (s.last() as int - '0' as int)
    }
}

/// The digits of a number stand for that number, are digits, and do not start with a zero,
/// unless the number is zero.
pub proof fn law_digits(n: nat)
    ensures
        number(digits(n)) == n,
        forall|i: int| 0 <= i < digits(n).len() ==> '0' <= #[trigger] digits(n)[i] <= '9',
        digits(n).len() > 0,
        digits(n)[0] == '0' ==> n == 0 && digits(n).len() == 1,
    decreases n,
{
    let c = ('0' as u32 + n % 10) as char;
    assert(c as int == '0' as int + n % 10);
    if n >= 10 {
        law_digits(n / 10);
        assert(digits(n).drop_last() == digits(n / 10));
    } else {
        assert(digits(n).drop_last() == Seq::<char>::empty());
        assert(number(Seq::<char>::empty()) == 0);
    }
}

/// Two numbers with the same digits are the same number.
pub proof fn law_digits_tell_numbers(m: nat, n: nat)
    requires
        digits(m) == digits(n),
    ensures
        m == n,
{
    law_digits(m);
    law_digits(n);
}

/// Texts are ordered like words in a dictionary: by the first character in which they
/// differ, and a text stands before the longer ones that start with it.
pub proof fn law_text_order_is_that_of_a_dictionary(
    common: Seq<char>,
    c: char,
    d: char,
    x: Seq<char>,
    y: Seq<char>,
)
    requires
        c < d,
    ensures
        text_before(common + seq![c] + x, common + seq![d] + y),
        !text_before(common + seq![d] + y, common + seq![c] + x),
        text_before(common, common + seq![c] + x),
        !text_before(common + seq![c] + x, common),
    decreases common.len(),
{
    let p = common + seq![c] + x;
    let q = common + seq![d] + y;
    if common.len() > 0 {
        let rest = common.subrange(1, common.len() as int);
        law_text_order_is_that_of_a_dictionary(rest, c, d, x, y);
        assert(p.subrange(1, p.len() as int) == rest + seq![c] + x);
        assert(q.subrange(1, q.len() as int) == rest + seq![d] + y);
        assert(p[0] == common[0] && q[0] == common[0]);
    }
}

/// The texts of strings are those of each of them, at its place, and the text of a string that
/// may be missing is missing where the string is.
pub proof fn law_texts(v: Seq<String>, i: int, s: String)
    requires
        0 <= i < v.len(),
    ensures
        texts(v).len() == v.len(),
        texts(v)[i] == v[i]@,
        option_text(Some(s)) == Some(s@),
        option_text(None) is None,
{
}

/// Trimming takes the white space in front of a text and behind it, and leaves the text.
pub proof fn law_trim_takes_around(before: Seq<char>, s: Seq<char>, after: Seq<char>)
    requires
        forall|i: int| 0 <= i < before.len() ==> white_space(#[trigger] before[i]),
        forall|i: int| 0 <= i < after.len() ==> white_space(#[trigger] after[i]),
        s.len() > 0 ==> !white_space(s[0]) && !white_space(s.last()),
    ensures
        trim(before + s + after) == s,
{
    let whole = before + s + after;
    let n = before.len() as int;
    let m = n + s.len();
    law_trim(whole);
    let (from, to) = choose|from: int, to: int|
        {
            &&& 0 <= from <= to <= whole.len()
            &&& trim(whole) == #[trigger] whole.subrange(from, to)
            &&& forall|i: int|
                0 <= i < from || to <= i < whole.len() ==> white_space(#[trigger] whole[i])
        };
    assert forall|i: int| 0 <= i < n || m <= i < whole.len() implies white_space(
        #[trigger] whole[i],
    ) by {
        if i < n {
            assert(whole[i] == before[i]);
        } else {
            assert(whole[i] == after[i - m]);
        }
    }
    if s.len() == 0 {
        law_trim_leaves_nothing(whole);
        assert(trim(whole) =~= s);
    } else {
        assert(whole[n] == s[0]);
        assert(whole[m - 1] == s.last());
        assert(from <= n && m <= to);
        assert(trim(whole)[0] == whole[from]);
        assert(trim(whole).last() == whole[to - 1]);
        assert(from == n && to == m);
        assert(whole.subrange(n, m) =~= s);
    }
}

} // verus!
