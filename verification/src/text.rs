//! Strings as sequences of characters.
//!
//! Every string function that the edit methods need is stated here over
//! `Seq<char>`, the view of `str` and `String`, and proved to compute what it
//! says.

use vstd::prelude::*;
use vstd::string::*;
use vstd::utf8::encode_utf8;

verus! {

/// `String::push` appends one character.
pub assume_specification[ String::push ](s: &mut String, c: char)
    ensures
        final(s)@ == old(s)@.push(c),
;

/// The contents of a sequence of strings.
pub open spec fn views<T: View<V = Seq<char>>>(items: Seq<T>) -> Seq<Seq<char>> {
    Seq::new(items.len(), |i: int| items[i]@)
}

/// The characters of `s`.
pub fn to_chars(s: &str) -> (r: Vec<char>)
    ensures
        r@ == s@,
{
    let mut r: Vec<char> = Vec::new();
    for c in it: s.chars()
        invariant
            r@ == it.seq().take(it.index()),
            it.seq() == s@,
    {
        r.push(c);
    }
    r
}

/// The string made of `chars`.
pub fn from_chars(chars: &[char]) -> (r: String)
    ensures
        r@ == chars@,
{
    let mut r: String = String::new();
    let mut i: usize = 0;
    while i < chars.len()
        invariant
            i <= chars@.len(),
            r@ == chars@.take(i as int),
        decreases chars@.len() - i,
    {
        r.push(chars[i]);
        i = i + 1;
    }
    r
}

/// Whether two strings have the same characters.
pub fn same(a: &str, b: &str) -> (r: bool)
    ensures
        r == (a@ == b@),
{
    let x = a.as_bytes();
    let y = b.as_bytes();
    proof {
        vstd::utf8::encode_utf8_decode_utf8(a@);
        vstd::utf8::encode_utf8_decode_utf8(b@);
    }
    if x.len() != y.len() {
        return false;
    }
    let mut i: usize = 0;
    while i < x.len()
        invariant
            i <= x@.len(),
            x@.len() == y@.len(),
            x@.take(i as int) == y@.take(i as int),
            x@ == vstd::utf8::encode_utf8(a@),
            y@ == vstd::utf8::encode_utf8(b@),
        decreases x@.len() - i,
    {
        if x[i] != y[i] {
            assert(x@[i as int] != y@[i as int]);
            return false;
        }
        assert(x@.take(i + 1) == x@.take(i as int).push(x@[i as int]));
        assert(y@.take(i + 1) == y@.take(i as int).push(y@[i as int]));
        i = i + 1;
    }
    assert(x@.take(i as int) == x@);
    assert(y@.take(i as int) == y@);
    true
}

/// The characters with the Unicode property `White_Space`.
pub open spec fn is_white(c: char) -> bool {
    let n = c as u32;
    ||| 0x9 <= n <= 0xD
    ||| n == 0x20
    ||| n == 0x85
    ||| n == 0xA0
    ||| n == 0x1680
    ||| 0x2000 <= n <= 0x200A
    ||| n == 0x2028
    ||| n == 0x2029
    ||| n == 0x202F
    ||| n == 0x205F
    ||| n == 0x3000
}

/// Whether `c` is a white-space character.
pub fn is_whitespace(c: char) -> (r: bool)
    ensures
        r == is_white(c),
{
    let n: u32 = c as u32;
    (0x9 <= n && n <= 0xD) || n == 0x20 || n == 0x85 || n == 0xA0 || n == 0x1680 || (0x2000 <= n
        && n <= 0x200A) || n == 0x2028 || n == 0x2029 || n == 0x202F || n == 0x205F || n == 0x3000
}

/// `s` without its leading white space.
pub open spec fn trimmed_start(s: Seq<char>) -> Seq<char>
    decreases s.len(),
{
    if s.len() > 0 && is_white(s[0]) {
        trimmed_start(s.skip(1))
    } else {
        s
    }
}

/// `s` without its trailing white space.
pub open spec fn trimmed_end(s: Seq<char>) -> Seq<char>
    decreases s.len(),
{
    if s.len() > 0 && is_white(s.last()) {
        trimmed_end(s.drop_last())
    } else {
        s
    }
}

/// `s` without its leading and trailing white space.
pub open spec fn trimmed(s: Seq<char>) -> Seq<char> {
    trimmed_start(trimmed_end(s))
}

/// Whether `s` holds nothing but white space.
pub open spec fn is_blank(s: Seq<char>) -> bool {
    trimmed(s).len() == 0
}

/// Removes leading white space.
pub fn trim_start(s: &str) -> (r: &str)
    ensures
        r@ == trimmed_start(s@),
{
    let v = to_chars(s);
    let mut i: usize = 0;
    assert(s@.skip(0) == s@);
    while i < v.len() && is_whitespace(v[i])
        invariant
            v@ == s@,
            i <= v@.len(),
            trimmed_start(s@.skip(i as int)) == trimmed_start(s@),
        decreases v@.len() - i,
    {
        assert(s@.skip(i as int).skip(1) == s@.skip(i + 1));
        i = i + 1;
    }
    s.substring_char(i, v.len())
}

/// Removes trailing white space.
pub fn trim_end(s: &str) -> (r: &str)
    ensures
        r@ == trimmed_end(s@),
{
    let v = to_chars(s);
    let mut i: usize = v.len();
    assert(s@.take(i as int) == s@);
    while i > 0 && is_whitespace(v[i - 1])
        invariant
            v@ == s@,
            i <= v@.len(),
            trimmed_end(s@.take(i as int)) == trimmed_end(s@),
        decreases i,
    {
        assert(s@.take(i as int).drop_last() == s@.take(i - 1));
        i = i - 1;
    }
    s.substring_char(0, i)
}

/// Removes leading and trailing white space.
pub fn trim(s: &str) -> (r: &str)
    ensures
        r@ == trimmed(s@),
{
    trim_start(trim_end(s))
}

/// Whether nothing is left of `s` once it is trimmed.
pub fn blank(s: &str) -> (r: bool)
    ensures
        r == is_blank(s@),
{
    trim(s).is_empty()
}

/// The pieces of `s` between occurrences of `sep`; one more than there are
/// occurrences.
pub open spec fn pieces(s: Seq<char>, sep: char) -> Seq<Seq<char>>
    decreases s.len(),
{
    if s.len() == 0 {
        seq![Seq::empty()]
    } else {
        let before = pieces(s.drop_last(), sep);
        if s.last() == sep {
            before.push(Seq::empty())
        } else {
            before.drop_last().push(before.last().push(s.last()))
        }
    }
}

/// There is always a piece.
pub proof fn lemma_pieces_nonempty(s: Seq<char>, sep: char)
    ensures
        pieces(s, sep).len() >= 1,
    decreases s.len(),
{
    if s.len() > 0 {
        lemma_pieces_nonempty(s.drop_last(), sep);
    }
}

/// Splits `s` at every `sep`.
pub fn split_on(s: &str, sep: char) -> (r: Vec<String>)
    ensures
        views(r@) == pieces(s@, sep),
        r@.len() >= 1,
{
    let mut done: Vec<String> = Vec::new();
    let mut cur: String = String::new();
    proof {
        assert(s@.take(0) == Seq::<char>::empty());
        assert(views(done@).push(cur@) == pieces(s@.take(0), sep));
    }
    for c in it: s.chars()
        invariant
            it.seq() == s@,
            views(done@).push(cur@) == pieces(s@.take(it.index()), sep),
    {
        let ghost k = it.index();
        proof {
            assert(s@.take(k + 1).drop_last() == s@.take(k));
            assert(s@.take(k + 1).last() == c);
            assert(views(done@).push(cur@).drop_last() == views(done@));
        }
        if c == sep {
            let ghost prev = done@;
            let ghost piece = cur;
            done.push(cur);
            proof {
                assert(views(done@) == views(prev).push(piece@));
            }
            cur = String::new();
            assert(cur@ == Seq::<char>::empty());
        } else {
            cur.push(c);
        }
    }
    assert(s@.take(s@.len() as int) == s@);
    let ghost prev = done@;
    let ghost piece = cur;
    done.push(cur);
    assert(views(done@) == views(prev).push(piece@));
    done
}

/// The items of `parts` with `sep` between each two.
pub open spec fn joined(parts: Seq<Seq<char>>, sep: Seq<char>) -> Seq<char>
    decreases parts.len(),
{
    if parts.len() == 0 {
        Seq::empty()
    } else if parts.len() == 1 {
        parts[0]
    } else {
        joined(parts.drop_last(), sep) + sep + parts.last()
    }
}

/// Joins `parts` with `sep` between each two.
pub fn join(parts: &[String], sep: &str) -> (r: String)
    ensures
        r@ == joined(views(parts@), sep@),
{
    let mut r: String = String::new();
    let mut i: usize = 0;
    assert(views(parts@).take(0).len() == 0);
    while i < parts.len()
        invariant
            i <= parts@.len(),
            r@ == joined(views(parts@).take(i as int), sep@),
        decreases parts@.len() - i,
    {
        let ghost before = views(parts@).take(i as int);
        let ghost after = views(parts@).take(i + 1);
        proof {
            assert(after.drop_last() == before);
            assert(after.last() == parts@[i as int]@);
        }
        if i > 0 {
            r.append(sep);
        } else {
            assert(r@ + parts@[0]@ == parts@[0]@);
        }
        r.append(parts[i].as_str());
        i = i + 1;
    }
    assert(views(parts@).take(i as int) == views(parts@));
    r
}

/// Whether `p` stands in `s` at `i`.
pub open spec fn occurs_at(s: Seq<char>, p: Seq<char>, i: int) -> bool {
    0 <= i && i + p.len() <= s.len() && s.subrange(i, i + p.len()) == p
}

/// The first index from `i` on at which `p` stands in `s`.
pub open spec fn index_from(s: Seq<char>, p: Seq<char>, i: int) -> Option<int>
    decreases s.len() + 1 - i,
{
    if i + p.len() > s.len() {
        None
    } else if occurs_at(s, p, i) {
        Some(i)
    } else {
        index_from(s, p, i + 1)
    }
}

/// Whether `p` stands somewhere in `s`.
pub open spec fn occurs(s: Seq<char>, p: Seq<char>) -> bool {
    index_from(s, p, 0) is Some
}

/// `index_from` is the least index at which `p` stands in `s`.
pub proof fn lemma_index_from(s: Seq<char>, p: Seq<char>, i: int)
    requires
        0 <= i,
    ensures
        match index_from(s, p, i) {
            Some(k) => i <= k && occurs_at(s, p, k) && (forall|j: int|
                i <= j < k ==> !occurs_at(s, p, j)),
            None => forall|j: int| i <= j ==> !occurs_at(s, p, j),
        },
    decreases s.len() + 1 - i,
{
    if i + p.len() > s.len() {
    } else if occurs_at(s, p, i) {
    } else {
        lemma_index_from(s, p, i + 1);
    }
}

/// Whether `p` stands in `s` at `i`.
fn stands_at(s: &[char], p: &[char], i: usize) -> (r: bool)
    requires
        i + p@.len() <= s@.len(),
    ensures
        r == occurs_at(s@, p@, i as int),
{
    let n: usize = s.len();
    let mut k: usize = 0;
    while k < p.len()
        invariant
            k <= p@.len(),
            n == s@.len(),
            i + p@.len() <= s@.len(),
            forall|j: int| 0 <= j < k ==> s@[i + j] == p@[j],
        decreases p@.len() - k,
    {
        if s[i + k] != p[k] {
            assert(s@.subrange(i as int, i + p@.len())[k as int] != p@[k as int]);
            return false;
        }
        k = k + 1;
    }
    assert(s@.subrange(i as int, i + p@.len()) == p@);
    true
}

/// The first index from `from` on at which `p` stands in `s`.
pub fn find_chars(s: &[char], p: &[char], from: usize) -> (r: Option<usize>)
    requires
        from <= s@.len(),
    ensures
        match r {
            Some(k) => index_from(s@, p@, from as int) == Some(k as int) && from <= k && k + p@.len()
                <= s@.len(),
            None => index_from(s@, p@, from as int) is None,
        },
{
    let mut i: usize = from;
    if p.len() > s.len() {
        return None;
    }
    while i <= s.len() - p.len()
        invariant
            from <= i,
            p@.len() <= s@.len(),
            i <= s@.len() - p@.len() + 1 || i == from,
            from <= s@.len(),
            index_from(s@, p@, i as int) == index_from(s@, p@, from as int),
        decreases s@.len() - p@.len() + 1 - i,
    {
        if stands_at(s, p, i) {
            return Some(i);
        }
        if i == s.len() - p.len() {
            assert(index_from(s@, p@, i + 1) is None);
            return None;
        }
        i = i + 1;
    }
    None
}

/// Whether `p` stands somewhere in `s`.
pub fn contains(s: &str, p: &str) -> (r: bool)
    ensures
        r == occurs(s@, p@),
{
    let v = to_chars(s);
    let w = to_chars(p);
    find_chars(&v, &w, 0).is_some()
}

/// Whether `c` is one of the characters of `s`.
pub fn contains_char(s: &str, c: char) -> (r: bool)
    ensures
        r == s@.contains(c),
{
    let v = to_chars(s);
    let mut i: usize = 0;
    while i < v.len()
        invariant
            i <= v@.len(),
            v@ == s@,
            forall|j: int| 0 <= j < i ==> v@[j] != c,
        decreases v@.len() - i,
    {
        if v[i] == c {
            assert(s@[i as int] == c);
            return true;
        }
        i = i + 1;
    }
    false
}

/// Whether `s` begins with `p`.
pub open spec fn begins(s: Seq<char>, p: Seq<char>) -> bool {
    occurs_at(s, p, 0)
}

/// Whether `s` ends with `p`.
pub open spec fn ends(s: Seq<char>, p: Seq<char>) -> bool {
    occurs_at(s, p, s.len() - p.len())
}

/// Whether `s` begins with `p`.
pub fn starts_with(s: &str, p: &str) -> (r: bool)
    ensures
        r == begins(s@, p@),
{
    let v = to_chars(s);
    let w = to_chars(p);
    w.len() <= v.len() && stands_at(&v, &w, 0)
}

/// Whether `s` ends with `p`.
pub fn ends_with(s: &str, p: &str) -> (r: bool)
    ensures
        r == ends(s@, p@),
{
    let v = to_chars(s);
    let w = to_chars(p);
    w.len() <= v.len() && stands_at(&v, &w, v.len() - w.len())
}

/// What follows `p` in `s`, where `s` begins with `p`.
pub open spec fn after_prefix(s: Seq<char>, p: Seq<char>) -> Option<Seq<char>> {
    if begins(s, p) {
        Some(s.skip(p.len() as int))
    } else {
        None
    }
}

/// What precedes `p` in `s`, where `s` ends with `p`.
pub open spec fn before_suffix(s: Seq<char>, p: Seq<char>) -> Option<Seq<char>> {
    if ends(s, p) {
        Some(s.take(s.len() - p.len()))
    } else {
        None
    }
}

/// The view of an optional string.
pub open spec fn opt_view<T: View<V = Seq<char>>>(o: Option<T>) -> Option<Seq<char>> {
    match o {
        Some(s) => Some(s@),
        None => None,
    }
}

/// Removes the prefix `p`.
pub fn strip_prefix<'a>(s: &'a str, p: &str) -> (r: Option<&'a str>)
    ensures
        opt_view(r) == after_prefix(s@, p@),
{
    let v = to_chars(s);
    let w = to_chars(p);
    if w.len() <= v.len() && stands_at(&v, &w, 0) {
        let rest = s.substring_char(w.len(), v.len());
        assert(rest@ == s@.skip(p@.len() as int));
        Some(rest)
    } else {
        None
    }
}

/// Removes the suffix `p`.
pub fn strip_suffix<'a>(s: &'a str, p: &str) -> (r: Option<&'a str>)
    ensures
        opt_view(r) == before_suffix(s@, p@),
{
    let v = to_chars(s);
    let w = to_chars(p);
    if w.len() <= v.len() && stands_at(&v, &w, v.len() - w.len()) {
        let rest = s.substring_char(0, v.len() - w.len());
        assert(rest@ == s@.take(s@.len() - p@.len()));
        Some(rest)
    } else {
        None
    }
}

/// `s` with every occurrence of `from`, taken from the left and without
/// overlap, replaced by `to`.
pub open spec fn replaced(s: Seq<char>, from: Seq<char>, to: Seq<char>) -> Seq<char>
    decreases s.len(),
{
    match index_from(s, from, 0) {
        Some(i) => if from.len() > 0 && 0 <= i && i + from.len() <= s.len() {
            s.take(i) + to + replaced(s.skip(i + from.len()), from, to)
        } else {
            s
        },
        None => s,
    }
}

/// Looking for `p` beyond `k` is looking for it in what follows `k`.
pub proof fn lemma_index_skip(s: Seq<char>, p: Seq<char>, k: int, i: int)
    requires
        0 <= k <= s.len(),
        0 <= i,
    ensures
        index_from(s, p, k + i) == (match index_from(s.skip(k), p, i) {
            Some(j) => Some(k + j),
            None => None,
        }),
    decreases s.len() + 1 - i,
{
    let t = s.skip(k);
    if i + p.len() <= t.len() {
        assert(t.subrange(i, i + p.len()) == s.subrange(k + i, k + i + p.len()));
        if !occurs_at(t, p, i) {
            lemma_index_skip(s, p, k, i + 1);
        }
    }
}

/// Replaces every occurrence of `from` by `to`.
pub fn replace(s: &str, from: &str, to: &str) -> (r: String)
    requires
        from@.len() > 0,
    ensures
        r@ == replaced(s@, from@, to@),
{
    let v = to_chars(s);
    let w = to_chars(from);
    let n: usize = v.len();
    let mut r: String = String::new();
    let mut i: usize = 0;
    let mut more = true;
    assert(s@.skip(0) == s@);
    assert(r@ + replaced(s@.skip(0), from@, to@) == replaced(s@, from@, to@));
    while more
        invariant
            v@ == s@,
            w@ == from@,
            n == v@.len(),
            from@.len() > 0,
            i <= v@.len(),
            more ==> r@ + replaced(s@.skip(i as int), from@, to@) == replaced(s@, from@, to@),
            !more ==> r@ == replaced(s@, from@, to@),
        decreases v@.len() - i, (if more { 1int } else { 0int }),
    {
        proof {
            lemma_index_skip(s@, from@, i as int, 0);
        }
        let ghost rest = s@.skip(i as int);
        let ghost before = r@;
        match find_chars(&v, &w, i) {
            Some(k) => {
                r.append(s.substring_char(i, k));
                r.append(to);
                proof {
                    assert(index_from(rest, from@, 0) == Some(k - i));
                    assert(rest.take(k - i) == s@.subrange(i as int, k as int));
                    assert(rest.skip(k - i + from@.len()) == s@.skip(k + from@.len()));
                    let tail = replaced(s@.skip(k + from@.len()), from@, to@);
                    assert(r@ + tail == before + (rest.take(k - i) + to@ + tail));
                }
                i = k + w.len();
            },
            None => {
                r.append(s.substring_char(i, v.len()));
                proof {
                    assert(replaced(rest, from@, to@) == rest);
                    assert(s@.subrange(i as int, v@.len() as int) == rest);
                }
                more = false;
            },
        }
    }
    r
}

/// The decimal digit `d`.
pub open spec fn digit(d: nat) -> char {
    (d + 48) as char
}

/// `n` in decimal, without leading zeros.
pub open spec fn decimal(n: nat) -> Seq<char>
    decreases n,
{
    if n < 10 {
        seq![digit(n)]
    } else {
        decimal(n / 10).push(digit(n % 10))
    }
}

/// Writes `n` in decimal.
pub fn show(n: usize) -> (r: String)
    ensures
        r@ == decimal(n as nat),
    decreases n,
{
    let d: u8 = (n % 10) as u8 + 48;
    let c = d as char;
    assert(c == digit(n as nat % 10));
    if n < 10 {
        let mut r: String = String::new();
        r.push(c);
        assert(r@ == seq![c]);
        r
    } else {
        let mut r = show(n / 10);
        r.push(c);
        r
    }
}

/// Whether `c` is a decimal digit.
pub open spec fn is_digit(c: char) -> bool {
    '0' <= c <= '9'
}

/// The value of a sequence of decimal digits.
pub open spec fn digits_value(s: Seq<char>) -> nat
    decreases s.len(),
{
    if s.len() == 0 {
        0
    } else {
        digits_value(s.drop_last()) * 10 + (s.last() as int - 48) as nat
    }
}

/// Whether `s` holds nothing but decimal digits.
pub open spec fn all_digits(s: Seq<char>) -> bool {
    forall|i: int| 0 <= i < s.len() ==> is_digit(#[trigger] s[i])
}

/// What is left of a number without its `+`.
pub open spec fn unsigned(s: Seq<char>) -> Seq<char> {
    if s.len() > 1 && s[0] == '+' {
        s.skip(1)
    } else {
        s
    }
}

/// The number that `s` writes: one or more decimal digits, with a `+` before
/// them or none, and a value that a `usize` holds.
pub open spec fn number(s: Seq<char>) -> Option<nat> {
    let d = unsigned(s);
    if d.len() > 0 && all_digits(d) && digits_value(d) <= usize::MAX {
        Some(digits_value(d))
    } else {
        None
    }
}

/// A prefix of a digit string has at most its value.
proof fn lemma_digits_prefix(s: Seq<char>, k: int)
    requires
        0 <= k <= s.len(),
        all_digits(s),
    ensures
        digits_value(s.take(k)) <= digits_value(s),
    decreases s.len(),
{
    if k < s.len() {
        lemma_digits_prefix(s.drop_last(), k);
        assert(s.drop_last().take(k) == s.take(k));
    } else {
        assert(s.take(k) == s);
    }
}

/// Reads a number.
pub fn parse(s: &str) -> (r: Option<usize>)
    ensures
        match r {
            Some(n) => number(s@) == Some(n as nat),
            None => number(s@) is None,
        },
{
    let v = to_chars(s);
    let start: usize = if v.len() > 1 && v[0] == '+' {
        1
    } else {
        0
    };
    if v.len() == 0 {
        return None;
    }
    let ghost d = unsigned(s@);
    assert(d == v@.skip(start as int));
    let mut n: usize = 0;
    let mut i: usize = start;
    assert(d.take(0) == Seq::<char>::empty());
    while i < v.len()
        invariant
            v@ == s@,
            start <= i <= v@.len(),
            start <= 1,
            v@.len() > start,
            d == unsigned(s@),
            d == v@.skip(start as int),
            forall|j: int| 0 <= j < i - start ==> is_digit(#[trigger] d[j]),
            n == digits_value(d.take(i - start)),
        decreases v@.len() - i,
    {
        let c = v[i];
        assert(d[i - start] == c);
        if c < '0' || c > '9' {
            assert(!is_digit(d[i - start]));
            return None;
        }
        let x: usize = (c as u32 - 48) as usize;
        let ghost k = i - start;
        proof {
            assert(d.take(k + 1).drop_last() == d.take(k));
            assert(digits_value(d.take(k + 1)) == n * 10 + x);
            if all_digits(d) {
                lemma_digits_prefix(d, k + 1);
            }
        }
        if n > usize::MAX / 10 {
            assert(n * 10 > usize::MAX);
            return None;
        }
        if n * 10 > usize::MAX - x {
            return None;
        }
        n = n * 10 + x;
        i = i + 1;
    }
    assert(d.take(d.len() as int) == d);
    Some(n)
}

/// The bytes of a text.
pub open spec fn bytes(s: Seq<char>) -> Seq<u8> {
    encode_utf8(s)
}

/// The length of a text in bytes.
pub fn byte_len(s: &str) -> (r: usize)
    ensures
        r == bytes(s@).len(),
{
    s.as_bytes().len()
}

/// How many bytes a character takes.
pub open spec fn width(c: char) -> nat {
    let n = c as u32;
    if n < 0x80 {
        1
    } else if n < 0x800 {
        2
    } else if n < 0x10000 {
        3
    } else {
        4
    }
}

/// One more character takes its width.
pub proof fn lemma_bytes_push(s: Seq<char>, c: char)
    ensures
        bytes(s.push(c)).len() == bytes(s).len() + width(c),
    decreases s.len(),
{
    vstd::utf8::char_is_scalar(c);
    let t = s.push(c);
    if s.len() == 0 {
        assert(t.drop_first() == Seq::<char>::empty());
        assert(encode_utf8(t.drop_first()).len() == 0);
        assert(encode_utf8(s).len() == 0);
    } else {
        assert(t.drop_first() == s.drop_first().push(c));
        lemma_bytes_push(s.drop_first(), c);
    }
}

/// How many characters of `s`, from its beginning, fit in `n` bytes.
pub open spec fn fitting(s: Seq<char>, n: int) -> nat
    decreases s.len(),
{
    if s.len() > 0 && width(s[0]) <= n {
        1 + fitting(s.skip(1), n - width(s[0]))
    } else {
        0
    }
}

/// The beginning of `s` that fits in `n` bytes.
pub fn prefix_within(s: &str, n: usize) -> (r: &str)
    ensures
        r@ == s@.take(fitting(s@, n as int) as int),
        fitting(s@, n as int) <= s@.len(),
{
    let v = to_chars(s);
    let mut left: usize = n;
    let mut i: usize = 0;
    let mut more = true;
    assert(s@.skip(0) == s@);
    while more
        invariant
            v@ == s@,
            i <= v@.len(),
            more ==> i + fitting(s@.skip(i as int), left as int) == fitting(s@, n as int),
            !more ==> i == fitting(s@, n as int),
        decreases v@.len() - i, (if more { 1int } else { 0int }),
    {
        if i < v.len() {
            let c: u32 = v[i] as u32;
            let w: usize = if c < 0x80 {
                1
            } else if c < 0x800 {
                2
            } else if c < 0x10000 {
                3
            } else {
                4
            };
            assert(w == width(s@.skip(i as int)[0]));
            if w <= left {
                assert(s@.skip(i as int).skip(1) == s@.skip(i + 1));
                left = left - w;
                i = i + 1;
            } else {
                more = false;
            }
        } else {
            more = false;
        }
    }
    s.substring_char(0, i)
}

/// Borrows each string.
pub fn to_refs(lines: &[String]) -> (r: Vec<&str>)
    ensures
        views(r@) == views(lines@),
        r@.len() == lines@.len(),
{
    let mut r: Vec<&str> = Vec::new();
    let mut i: usize = 0;
    while i < lines.len()
        invariant
            i <= lines@.len(),
            r@.len() == i,
            forall|k: int| 0 <= k < i ==> (#[trigger] r@[k])@ == lines@[k]@,
        decreases lines@.len() - i,
    {
        r.push(lines[i].as_str());
        i = i + 1;
    }
    assert(views(r@) == views(lines@));
    r
}

/// Joins borrowed strings with `sep` between each two.
pub fn join_refs(parts: &[&str], sep: &str) -> (r: String)
    ensures
        r@ == joined(views(parts@), sep@),
{
    let mut r: String = String::new();
    let mut i: usize = 0;
    assert(views(parts@).take(0).len() == 0);
    while i < parts.len()
        invariant
            i <= parts@.len(),
            r@ == joined(views(parts@).take(i as int), sep@),
        decreases parts@.len() - i,
    {
        let ghost before = views(parts@).take(i as int);
        let ghost after = views(parts@).take(i + 1);
        proof {
            assert(after.drop_last() == before);
            assert(after.last() == parts@[i as int]@);
        }
        if i > 0 {
            r.append(sep);
        } else {
            assert(r@ + parts@[0]@ == parts@[0]@);
        }
        r.append(parts[i]);
        i = i + 1;
    }
    assert(views(parts@).take(i as int) == views(parts@));
    r
}

/// An optional integer.
pub open spec fn opt_nat(n: Option<usize>) -> Option<nat> {
    match n {
        Some(x) => Some(x as nat),
        None => None,
    }
}

/// The words of `s`: its longest runs of characters that are not white space.
pub open spec fn words(s: Seq<char>) -> Seq<Seq<char>>
    decreases s.len(),
{
    if s.len() == 0 {
        Seq::empty()
    } else {
        let before = words(s.drop_last());
        if is_white(s.last()) {
            before
        } else if s.len() > 1 && !is_white(s[s.len() - 2]) {
            before.drop_last().push(before.last().push(s.last()))
        } else {
            before.push(seq![s.last()])
        }
    }
}

/// Splits `s` into its words.
pub fn split_whitespace(s: &str) -> (r: Vec<String>)
    ensures
        views(r@) == words(s@),
        r@.len() == words(s@).len(),
{
    let v = to_chars(s);
    let mut done: Vec<String> = Vec::new();
    let mut cur: String = String::new();
    let mut open = false;
    let mut i: usize = 0;
    assert(v@.take(0).len() == 0);
    assert(views(done@) =~= words(v@.take(0)));
    while i < v.len()
        invariant
            v@ == s@,
            i <= v@.len(),
            open <==> i > 0 && !is_white(v@[i - 1]),
            open ==> views(done@).push(cur@) == words(v@.take(i as int)),
            !open ==> views(done@) == words(v@.take(i as int)) && cur@.len() == 0,
        decreases v@.len() - i,
    {
        let c = v[i];
        let ghost t = v@.take(i + 1);
        proof {
            assert(t.drop_last() == v@.take(i as int));
            assert(t.last() == c);
            if i > 0 {
                assert(t[t.len() - 2] == v@[i - 1]);
            }
            assert(views(done@).push(cur@).drop_last() == views(done@));
        }
        if is_whitespace(c) {
            if open {
                let ghost done0 = done@;
                let ghost w = cur@;
                done.push(cur);
                assert(views(done@) == views(done0).push(w));
                cur = String::new();
                open = false;
            }
        } else {
            let ghost w = cur@;
            cur.push(c);
            proof {
                if !open {
                    assert(w.push(c) =~= seq![c]);
                }
            }
            open = true;
        }
        i = i + 1;
    }
    assert(v@.take(i as int) == v@);
    if open {
        let ghost done0 = done@;
        let ghost w = cur@;
        done.push(cur);
        assert(views(done@) == views(done0).push(w));
    }
    assert(done@.len() == views(done@).len());
    done
}

/// What precedes and what follows the first `c` in `s`.
pub open spec fn parted(s: Seq<char>, c: char) -> Option<(Seq<char>, Seq<char>)> {
    match index_from(s, seq![c], 0) {
        Some(i) => Some((s.take(i), s.skip(i + 1))),
        None => None,
    }
}

/// Splits `s` at the first `c`.
pub fn split_once<'a>(s: &'a str, c: char) -> (r: Option<(&'a str, &'a str)>)
    ensures
        match r {
            Some((a, b)) => parted(s@, c) == Some((a@, b@)),
            None => parted(s@, c) is None,
        },
{
    let v = to_chars(s);
    let p: Vec<char> = vec![c];
    let n: usize = v.len();
    assert(p@ == seq![c]);
    match find_chars(&v, &p, 0) {
        Some(i) => {
            let a = s.substring_char(0, i);
            let b = s.substring_char(i + 1, n);
            assert(a@ == s@.take(i as int));
            assert(b@ == s@.skip(i + 1));
            Some((a, b))
        },
        None => None,
    }
}

/// The lower-case form of an ASCII letter; any other character as it is.
pub open spec fn lower(c: char) -> char {
    if 'A' <= c <= 'Z' {
        (c as u32 + 32) as char
    } else {
        c
    }
}

/// `s` with its ASCII letters in lower case.
pub open spec fn lowered(s: Seq<char>) -> Seq<char> {
    Seq::new(s.len(), |i: int| lower(s[i]))
}

/// Writes ASCII letters in lower case.
pub fn to_ascii_lowercase(s: &str) -> (r: String)
    ensures
        r@ == lowered(s@),
{
    let v = to_chars(s);
    let mut r: String = String::new();
    let mut i: usize = 0;
    while i < v.len()
        invariant
            v@ == s@,
            i <= v@.len(),
            r@ == lowered(s@).take(i as int),
        decreases v@.len() - i,
    {
        let c = v[i];
        if 'A' <= c && c <= 'Z' {
            let d: u8 = (c as u32 + 32) as u8;
            r.push(d as char);
        } else {
            r.push(c);
        }
        assert(lowered(s@).take(i + 1) == lowered(s@).take(i as int).push(lowered(s@)[i as int]));
        i = i + 1;
    }
    assert(lowered(s@).take(i as int) == lowered(s@));
    r
}

/// `n`, or the greatest number that a `usize` holds.
pub open spec fn capped(n: int) -> nat {
    if n <= usize::MAX {
        n as nat
    } else {
        usize::MAX as nat
    }
}

/// Appends a copy of `s`.
pub fn push_text(v: &mut Vec<String>, s: &str)
    ensures
        views(final(v)@) == views(old(v)@).push(s@),
{
    let ghost v0 = v@;
    v.push(s.to_owned());
    assert(views(v@) =~= views(v0).push(s@));
}

/// Whether `v` holds `s`.
pub fn holds_text(v: &[String], s: &str) -> (r: bool)
    ensures
        r == views(v@).contains(s@),
{
    let mut i: usize = 0;
    while i < v.len()
        invariant
            i <= v@.len(),
            forall|k: int| 0 <= k < i ==> #[trigger] views(v@)[k] != s@,
        decreases v@.len() - i,
    {
        if same(v[i].as_str(), s) {
            assert(views(v@)[i as int] == s@);
            return true;
        }
        i = i + 1;
    }
    false
}

/// Copies each string.
pub fn copy_texts(v: &[String]) -> (r: Vec<String>)
    ensures
        views(r@) == views(v@),
        r@.len() == v@.len(),
{
    let mut r: Vec<String> = Vec::new();
    let mut i: usize = 0;
    while i < v.len()
        invariant
            i <= v@.len(),
            r@.len() == i,
            views(r@) == views(v@).take(i as int),
        decreases v@.len() - i,
    {
        push_text(&mut r, v[i].as_str());
        assert(views(v@).take(i + 1) =~= views(v@).take(i as int).push(views(v@)[i as int]));
        assert(r@.len() == views(r@).len());
        i = i + 1;
    }
    assert(views(v@).take(i as int) =~= views(v@));
    r
}

/// Copies the strings from `a` to `b`, the last not counted.
pub fn copy_range(v: &[String], a: usize, b: usize) -> (r: Vec<String>)
    requires
        a <= b <= v@.len(),
    ensures
        views(r@) == views(v@).subrange(a as int, b as int),
        r@.len() == b - a,
{
    let part = vstd::slice::slice_subrange(v, a, b);
    let r = copy_texts(part);
    assert(views(part@) =~= views(v@).subrange(a as int, b as int));
    r
}

/// Whether the strings are equal, one by one.
pub fn same_lines(a: &[String], b: &[String]) -> (r: bool)
    ensures
        r == (views(a@) == views(b@)),
{
    if a.len() != b.len() {
        assert(views(a@).len() != views(b@).len());
        return false;
    }
    let mut i: usize = 0;
    while i < a.len()
        invariant
            i <= a@.len(),
            a@.len() == b@.len(),
            forall|k: int| 0 <= k < i ==> #[trigger] views(a@)[k] == views(b@)[k],
        decreases a@.len() - i,
    {
        if !same(a[i].as_str(), b[i].as_str()) {
            assert(views(a@)[i as int] != views(b@)[i as int]);
            return false;
        }
        i = i + 1;
    }
    assert(views(a@) =~= views(b@));
    true
}

/// `lines` with those from `a` to `b`, the last not counted, replaced.
pub open spec fn spliced(
    lines: Seq<Seq<char>>,
    a: int,
    b: int,
    new: Seq<Seq<char>>,
) -> Seq<Seq<char>> {
    lines.take(a) + new + lines.skip(b)
}

/// Replaces the lines from `a` to `b`, the last not counted, with `new`.
pub fn splice(lines: &[String], a: usize, b: usize, new: &[String]) -> (r: Vec<String>)
    requires
        a <= b <= lines@.len(),
    ensures
        views(r@) == spliced(views(lines@), a as int, b as int, views(new@)),
{
    let ghost l = views(lines@);
    let mut out: Vec<String> = Vec::new();
    let mut i: usize = 0;
    assert(views(out@) =~= l.take(0));
    while i < a
        invariant
            i <= a,
            a <= lines@.len(),
            l == views(lines@),
            views(out@) == l.take(i as int),
        decreases a - i,
    {
        push_text(&mut out, lines[i].as_str());
        assert(l.take(i + 1) =~= l.take(i as int).push(l[i as int]));
        i = i + 1;
    }
    let ghost head = l.take(a as int);
    let ghost m = views(new@);
    i = 0;
    assert(views(out@) =~= head + m.take(0));
    while i < new.len()
        invariant
            i <= new@.len(),
            m == views(new@),
            views(out@) == head + m.take(i as int),
        decreases new@.len() - i,
    {
        push_text(&mut out, new[i].as_str());
        assert(head + m.take(i + 1) =~= (head + m.take(i as int)).push(m[i as int]));
        i = i + 1;
    }
    let ghost both = head + m;
    assert(m.take(i as int) =~= m);
    i = b;
    assert(views(out@) =~= both + l.subrange(b as int, b as int));
    while i < lines.len()
        invariant
            b <= i <= lines@.len(),
            l == views(lines@),
            views(out@) == both + l.subrange(b as int, i as int),
        decreases lines@.len() - i,
    {
        push_text(&mut out, lines[i].as_str());
        assert(both + l.subrange(b as int, i + 1) =~= (both + l.subrange(
            b as int,
            i as int,
        )).push(l[i as int]));
        i = i + 1;
    }
    assert(l.subrange(b as int, i as int) =~= l.skip(b as int));
    out
}

/// No piece holds the separator.
pub proof fn law_pieces_clean(s: Seq<char>, sep: char)
    ensures
        forall|i: int| 0 <= i < pieces(s, sep).len() ==> !(#[trigger] pieces(s, sep)[i]).contains(sep),
    decreases s.len(),
{
    if s.len() > 0 {
        law_pieces_clean(s.drop_last(), sep);
        lemma_pieces_nonempty(s.drop_last(), sep);
        let before = pieces(s.drop_last(), sep);
        let all = pieces(s, sep);
        assert forall|i: int| 0 <= i < all.len() implies !(#[trigger] all[i]).contains(sep) by {
            if i < before.len() - 1 || (s.last() == sep && i < before.len()) {
                assert(all[i] == before[i]);
            } else if s.last() != sep {
                let last = before.last();
                assert(all[i] == last.push(s.last()));
                assert(!last.contains(sep));
                if all[i].contains(sep) {
                    let k = choose|k: int| 0 <= k < all[i].len() && all[i][k] == sep;
                    if k < last.len() {
                        assert(last[k] == sep);
                    }
                }
            }
        }
    }
}

/// Pieces that are joined again are the text.
pub proof fn law_join_pieces(s: Seq<char>, sep: char)
    ensures
        joined(pieces(s, sep), seq![sep]) == s,
    decreases s.len(),
{
    if s.len() > 0 {
        let t = s.drop_last();
        law_join_pieces(t, sep);
        lemma_pieces_nonempty(t, sep);
        let before = pieces(t, sep);
        let all = pieces(s, sep);
        if s.last() == sep {
            assert(all.drop_last() =~= before);
            assert(joined(all, seq![sep]) =~= t + seq![sep] + Seq::<char>::empty());
            assert(t + seq![sep] + Seq::<char>::empty() =~= s);
        } else {
            assert(all.drop_last() =~= before.drop_last());
            if before.len() == 1 {
                assert(joined(before, seq![sep]) == before[0]);
                assert(joined(all, seq![sep]) == all[0]);
                assert(all[0] =~= t.push(s.last()));
            } else {
                assert(joined(all, seq![sep]) =~= joined(before, seq![sep]).push(s.last()));
            }
            assert(t.push(s.last()) =~= s);
        }
    }
}

/// The pieces of a text and a longer one agree but for the last.
proof fn lemma_pieces_add(s: Seq<char>, t: Seq<char>, sep: char)
    requires
        !t.contains(sep),
    ensures
        pieces(s + t, sep) == pieces(s, sep).drop_last().push(pieces(s, sep).last() + t),
    decreases t.len(),
{
    lemma_pieces_nonempty(s, sep);
    let p = pieces(s, sep);
    if t.len() == 0 {
        assert(s + t =~= s);
        assert(p.last() + t =~= p.last());
        assert(p.drop_last().push(p.last()) =~= p);
    } else {
        let u = t.drop_last();
        assert forall|k: int| 0 <= k < u.len() implies u[k] != sep by {
            assert(t[k] == u[k]);
            assert(t.contains(t[k]));
        }
        assert(t.contains(t.last()));
        lemma_pieces_add(s, u, sep);
        assert((s + t).drop_last() =~= s + u);
        let q = p.drop_last().push(p.last() + u);
        assert(q.drop_last() =~= p.drop_last());
        assert((p.last() + u).push(t.last()) =~= p.last() + t);
        assert(pieces(s + t, sep) =~= p.drop_last().push(p.last() + t));
    }
}

/// Parts without the separator, joined by it, are the pieces again.
pub proof fn law_pieces_join(parts: Seq<Seq<char>>, sep: char)
    requires
        parts.len() > 0,
        forall|i: int| 0 <= i < parts.len() ==> !(#[trigger] parts[i]).contains(sep),
    ensures
        pieces(joined(parts, seq![sep]), sep) == parts,
    decreases parts.len(),
{
    let last = parts.last();
    assert(!last.contains(sep));
    if parts.len() == 1 {
        let none = Seq::<char>::empty();
        lemma_pieces_add(none, last, sep);
        assert(none + last =~= last);
        assert(pieces(none, sep) == seq![none]);
        assert(pieces(last, sep) =~= parts);
    } else {
        let rest = parts.drop_last();
        law_pieces_join(rest, sep);
        let head = joined(rest, seq![sep]);
        let cut = head + seq![sep];
        assert(cut.drop_last() =~= head);
        assert(pieces(cut, sep) == rest.push(Seq::empty()));
        lemma_pieces_add(cut, last, sep);
        assert(rest.push(Seq::<char>::empty()).drop_last() =~= rest);
        assert(Seq::<char>::empty() + last =~= last);
        assert(rest.push(last) =~= parts);
    }
}

/// A text in which the pattern does not stand stays as it is.
pub proof fn lemma_replaced_absent(s: Seq<char>, from: Seq<char>, to: Seq<char>)
    requires
        from.len() > 0,
        !s.contains(from[0]),
    ensures
        index_from(s, from, 0) is None,
        replaced(s, from, to) == s,
{
    lemma_index_from(s, from, 0);
    match index_from(s, from, 0) {
        Some(k) => {
            assert(s.subrange(k, k + from.len())[0] == s[k]);
            assert(s.contains(s[k]));
        },
        None => {},
    }
}

/// The first occurrence behind a text without the first character of the
/// pattern is where that text ends.
pub proof fn lemma_index_after(a: Seq<char>, p: Seq<char>, rest: Seq<char>)
    requires
        p.len() > 0,
        !a.contains(p[0]),
    ensures
        index_from(a + p + rest, p, 0) == Some(a.len() as int),
{
    let s = a + p + rest;
    lemma_index_from(s, p, 0);
    assert(s.subrange(a.len() as int, (a.len() + p.len()) as int) =~= p);
    assert(occurs_at(s, p, a.len() as int));
    match index_from(s, p, 0) {
        Some(k) => {
            if k < a.len() {
                assert(s.subrange(k, k + p.len())[0] == a[k]);
                assert(a.contains(a[k]));
            } else if k > a.len() {
                assert(!occurs_at(s, p, a.len() as int));
            }
        },
        None => {},
    }
}

/// What precedes the first occurrence of a character does not hold it.
pub proof fn lemma_before_first(s: Seq<char>, c: char, k: int)
    requires
        index_from(s, seq![c], 0) == Some(k),
    ensures
        0 <= k < s.len(),
        s[k] == c,
        !s.take(k).contains(c),
        s == s.take(k) + seq![c] + s.skip(k + 1),
{
    lemma_index_from(s, seq![c], 0);
    assert(s.subrange(k, k + 1)[0] == s[k]);
    if s.take(k).contains(c) {
        let j = choose|j: int| 0 <= j < k && s.take(k)[j] == c;
        assert(s.subrange(j, j + 1) =~= seq![c]);
        assert(occurs_at(s, seq![c], j));
    }
    assert(s =~= s.take(k) + seq![c] + s.skip(k + 1));
}

/// A character that is replaced, and not by itself, is gone.
pub proof fn lemma_replaced_gone(s: Seq<char>, c: char, to: Seq<char>)
    requires
        !to.contains(c),
    ensures
        !replaced(s, seq![c], to).contains(c),
    decreases s.len(),
{
    lemma_index_from(s, seq![c], 0);
    match index_from(s, seq![c], 0) {
        Some(k) => {
            lemma_before_first(s, c, k);
            let a = s.take(k);
            let rest = replaced(s.skip(k + 1), seq![c], to);
            lemma_replaced_gone(s.skip(k + 1), c, to);
            let r = a + to + rest;
            assert(replaced(s, seq![c], to) == r);
            if r.contains(c) {
                let j = choose|j: int| 0 <= j < r.len() && r[j] == c;
                if j < a.len() {
                    assert(a[j] == c);
                } else if j < a.len() + to.len() {
                    assert(to[j - a.len()] == c);
                } else {
                    assert(rest[j - a.len() - to.len()] == c);
                }
            }
        },
        None => {
            if s.contains(c) {
                let j = choose|j: int| 0 <= j < s.len() && s[j] == c;
                assert(s.subrange(j, j + 1) =~= seq![c]);
                assert(occurs_at(s, seq![c], j));
            }
        },
    }
}

/// What is written in decimal is made of digits, and has the value that was
/// written.
pub proof fn lemma_decimal(n: nat)
    ensures
        decimal(n).len() > 0,
        all_digits(decimal(n)),
        digits_value(decimal(n)) == n,
    decreases n,
{
    if n < 10 {
        assert(decimal(n).drop_last() =~= Seq::<char>::empty());
        assert(digits_value(Seq::<char>::empty()) == 0);
        assert(digits_value(decimal(n)) == n);
    } else {
        lemma_decimal(n / 10);
        let d = digit(n % 10);
        let head = decimal(n / 10);
        assert(decimal(n) == head.push(d));
        assert(head.push(d).drop_last() =~= head);
        assert(head.push(d).last() == d);
        assert(is_digit(d));
        assert(digits_value(decimal(n)) == n);
    }
}

/// A number that is written in decimal reads as itself.
pub proof fn law_decimal_round_trip(n: nat)
    requires
        n <= usize::MAX,
    ensures
        number(decimal(n)) == Some(n),
{
    lemma_decimal(n);
    assert(is_digit(decimal(n)[0]));
}

/// To drop a character from two texts is to drop it from both.
pub proof fn lemma_replaced_add(s: Seq<char>, t: Seq<char>, c: char, to: Seq<char>)
    ensures
        replaced(s + t, seq![c], to) == replaced(s, seq![c], to) + replaced(t, seq![c], to),
    decreases s.len(),
{
    lemma_index_from(s, seq![c], 0);
    match index_from(s, seq![c], 0) {
        Some(k) => {
            lemma_before_first(s, c, k);
            let a = s.take(k);
            let rest = s.skip(k + 1);
            lemma_replaced_add(rest, t, c, to);
            lemma_index_after(a, seq![c], rest + t);
            assert(a + seq![c] + (rest + t) =~= s + t);
            assert((s + t).take(k) =~= a);
            assert((s + t).skip(k + 1) =~= rest + t);
            assert(replaced(s + t, seq![c], to) =~= replaced(s, seq![c], to) + replaced(
                t,
                seq![c],
                to,
            ));
        },
        None => {
            if s.contains(c) {
                let j = choose|j: int| 0 <= j < s.len() && s[j] == c;
                assert(s.subrange(j, j + 1) =~= seq![c]);
                assert(occurs_at(s, seq![c], j));
            }
            lemma_index_from(t, seq![c], 0);
            match index_from(t, seq![c], 0) {
                Some(k) => {
                    lemma_before_first(t, c, k);
                    let a = s + t.take(k);
                    let rest = t.skip(k + 1);
                    assert forall|i: int| 0 <= i < a.len() implies a[i] != c by {
                        if i < s.len() {
                            assert(s.contains(s[i]));
                        } else {
                            assert(t.take(k).contains(t.take(k)[i - s.len()]));
                        }
                    }
                    lemma_index_after(a, seq![c], rest);
                    assert(a + seq![c] + rest =~= s + t);
                    assert((s + t).take(a.len() as int) =~= a);
                    assert((s + t).skip(a.len() + 1int) =~= rest);
                    assert(replaced(s + t, seq![c], to) =~= s + replaced(t, seq![c], to));
                },
                None => {
                    if (s + t).contains(c) {
                        let j = choose|j: int| 0 <= j < (s + t).len() && (s + t)[j] == c;
                        if j < s.len() {
                            assert(s.contains(s[j]));
                        } else {
                            let i = j - s.len();
                            assert(t[i] == c);
                            assert(t.subrange(i, i + 1) =~= seq![c]);
                            assert(occurs_at(t, seq![c], i));
                        }
                    }
                    lemma_replaced_absent(s + t, seq![c], to);
                },
            }
        },
    }
}

/// White space at the end does not count once the end is trimmed.
pub proof fn lemma_trimmed_end_add(s: Seq<char>, t: Seq<char>)
    requires
        forall|i: int| 0 <= i < t.len() ==> is_white(#[trigger] t[i]),
    ensures
        trimmed_end(s + t) == trimmed_end(s),
    decreases t.len(),
{
    if t.len() == 0 {
        assert(s + t =~= s);
    } else {
        let u = t.drop_last();
        assert forall|i: int| 0 <= i < u.len() implies is_white(#[trigger] u[i]) by {
            assert(u[i] == t[i]);
        }
        lemma_trimmed_end_add(s, u);
        assert((s + t).last() == t[t.len() - 1]);
        assert((s + t).drop_last() =~= s + u);
    }
}

/// The bytes of the first `k` characters hold the first `k` characters.
pub proof fn lemma_fitting(s: Seq<char>, k: int)
    requires
        0 <= k <= s.len(),
    ensures
        fitting(s, bytes(s.take(k)).len() as int) == k,
    decreases k,
{
    if k == 0 {
        assert(encode_utf8(s.take(0)).len() == 0);
    } else {
        let t = s.skip(1);
        lemma_fitting(t, k - 1);
        let head = s.take(k);
        assert(head.drop_first() =~= t.take(k - 1));
        vstd::utf8::char_is_scalar(s[0]);
        assert(bytes(head).len() == width(s[0]) + bytes(t.take(k - 1)).len());
    }
}

/// What is left of a text that is trimmed at its end does not end in white space.
proof fn lemma_trimmed_end_solid(s: Seq<char>)
    ensures
        trimmed_end(s).len() > 0 ==> !is_white(trimmed_end(s).last()),
    decreases s.len(),
{
    if s.len() > 0 && is_white(s.last()) {
        lemma_trimmed_end_solid(s.drop_last());
    }
}

/// Trimming the beginning leaves the end, and no white space at the beginning.
proof fn lemma_trimmed_start_solid(s: Seq<char>)
    ensures
        trimmed_start(s).len() > 0 ==> !is_white(trimmed_start(s)[0]) && trimmed_start(s).last()
            == s.last() && s.len() > 0,
    decreases s.len(),
{
    if s.len() > 0 && is_white(s[0]) {
        lemma_trimmed_start_solid(s.skip(1));
    }
}

/// Trimmed text neither begins nor ends with white space.
pub proof fn lemma_trimmed_solid(s: Seq<char>)
    ensures
        trimmed(s).len() > 0 ==> !is_white(trimmed(s)[0]) && !is_white(trimmed(s).last()),
{
    lemma_trimmed_end_solid(s);
    lemma_trimmed_start_solid(trimmed_end(s));
}

/// White space at the beginning does not count once a text is trimmed.
pub proof fn lemma_trimmed_lead(c: char, s: Seq<char>)
    requires
        is_white(c),
    ensures
        trimmed(seq![c] + s) == trimmed(s),
    decreases s.len(),
{
    let t = seq![c] + s;
    if s.len() == 0 {
        assert(t.drop_last() =~= s);
    } else if is_white(s.last()) {
        lemma_trimmed_lead(c, s.drop_last());
        assert(t.drop_last() =~= seq![c] + s.drop_last());
        assert(t.last() == s.last());
    } else {
        assert(t.last() == s.last());
        assert(t.skip(1) =~= s);
    }
}

/// Trimmed text stays as it is when it is trimmed again.
pub proof fn lemma_trimmed_again(s: Seq<char>)
    ensures
        trimmed(trimmed(s)) == trimmed(s),
{
    lemma_trimmed_solid(s);
}

/// Two sequences of texts joined are each joined, with a separator between.
pub proof fn lemma_joined_add(a: Seq<Seq<char>>, b: Seq<Seq<char>>, sep: Seq<char>)
    requires
        a.len() > 0,
        b.len() > 0,
    ensures
        joined(a + b, sep) == joined(a, sep) + sep + joined(b, sep),
    decreases b.len(),
{
    let all = a + b;
    assert(all.last() == b.last());
    if b.len() == 1 {
        assert(all.drop_last() =~= a);
    } else {
        assert(all.drop_last() =~= a + b.drop_last());
        lemma_joined_add(a, b.drop_last(), sep);
        assert(joined(all, sep) =~= joined(a, sep) + sep + joined(b, sep));
    }
}

/// A text that begins and ends with something else than white space is not trimmed.
pub proof fn lemma_untrimmed(s: Seq<char>)
    requires
        s.len() > 0,
        !is_white(s[0]),
        !is_white(s.last()),
    ensures
        trimmed(s) == s,
        trimmed_end(s) == s,
        trimmed_start(s) == s,
        !is_blank(s),
{
}

/// Two texts without white space, with a space between them, are two words.
pub proof fn lemma_two_words(a: Seq<char>, b: Seq<char>)
    requires
        a.len() > 0,
        b.len() > 0,
        forall|i: int| 0 <= i < a.len() ==> !is_white(#[trigger] a[i]),
        forall|i: int| 0 <= i < b.len() ==> !is_white(#[trigger] b[i]),
    ensures
        words(a + seq![' '] + b) == seq![a, b],
    decreases b.len(),
{
    let s = a + seq![' '] + b;
    let before = s.drop_last();
    assert(s.last() == b[b.len() - 1]);
    if b.len() == 1 {
        assert(before =~= a.push(' '));
        assert(before.drop_last() =~= a);
        lemma_one_word(a);
        assert(words(before) == words(a));
        assert(s[s.len() - 2] == ' ');
        assert(seq![s.last()] =~= b);
        assert(seq![a].push(b) =~= seq![a, b]);
    } else {
        let c = b.drop_last();
        assert forall|i: int| 0 <= i < c.len() implies !is_white(#[trigger] c[i]) by {
            assert(c[i] == b[i]);
        }
        lemma_two_words(a, c);
        assert(before =~= a + seq![' '] + c);
        assert(s[s.len() - 2] == b[b.len() - 2]);
        assert(c.push(s.last()) =~= b);
        assert(seq![a, c].drop_last().push(b) =~= seq![a, b]);
    }
}

/// A text without white space is one word.
pub proof fn lemma_one_word(a: Seq<char>)
    requires
        a.len() > 0,
        forall|i: int| 0 <= i < a.len() ==> !is_white(#[trigger] a[i]),
    ensures
        words(a) == seq![a],
    decreases a.len(),
{
    let before = a.drop_last();
    assert(a.last() == a[a.len() - 1]);
    if a.len() == 1 {
        assert(words(before) =~= Seq::empty());
        assert(seq![a.last()] =~= a);
    } else {
        assert forall|i: int| 0 <= i < before.len() implies !is_white(#[trigger] before[i]) by {
            assert(before[i] == a[i]);
        }
        lemma_one_word(before);
        assert(!is_white(a[a.len() - 2]));
        assert(before.push(a.last()) =~= a);
        assert(seq![before].drop_last().push(a) =~= seq![a]);
    }
}

/// Where a pattern stands, and its first character does not before, it is found.
pub proof fn lemma_found_at(s: Seq<char>, p: Seq<char>, i: int, k: int)
    requires
        0 <= i <= k,
        p.len() > 0,
        occurs_at(s, p, k),
        forall|j: int| i <= j < k ==> #[trigger] s[j] != p[0],
    ensures
        index_from(s, p, i) == Some(k),
    decreases k - i,
{
    if i < k {
        assert(s[i] != p[0]);
        if occurs_at(s, p, i) {
            assert(s.subrange(i, i + p.len())[0] == s[i]);
        }
        lemma_found_at(s, p, i + 1, k);
    }
}

/// A pattern whose first character does not stand from `i` on is not found there.
pub proof fn lemma_not_found(s: Seq<char>, p: Seq<char>, i: int)
    requires
        0 <= i,
        p.len() > 0,
        forall|j: int| i <= j < s.len() ==> #[trigger] s[j] != p[0],
    ensures
        index_from(s, p, i) is None,
    decreases s.len() + 1 - i,
{
    if i + p.len() <= s.len() {
        assert(s[i] != p[0]);
        if occurs_at(s, p, i) {
            assert(s.subrange(i, i + p.len())[0] == s[i]);
        }
        lemma_not_found(s, p, i + 1);
    }
}

/// Space around a text that has none at its ends is what trimming takes away.
pub proof fn lemma_trimmed_spaced(s: Seq<char>)
    requires
        s.len() > 0,
        !is_white(s[0]),
        !is_white(s.last()),
    ensures
        trimmed(seq![' '] + s + seq![' ']) == s,
{
    lemma_trimmed_end_add(seq![' '] + s, seq![' ']);
    lemma_trimmed_lead(' ', s);
    lemma_untrimmed(s);
}

} // verus!
