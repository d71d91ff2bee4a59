//! Character-level string helpers with their specifications.

use vstd::prelude::*;

verus! {

/// Appends one character to a `String` (`String::push`).
/// Trusted: the new contents are the old contents followed by `c`.
#[verifier::external_body]
pub(crate) fn push_char(s: &mut String, c: char)
    ensures
        final(s)@ == old(s)@.push(c),
{
    s.push(c);
}

/// The characters of a string slice, in order.
pub fn chars_of(s: &str) -> (r: Vec<char>)
    ensures
        r@ == s@,
{
    let mut r: Vec<char> = Vec::new();
    for c in it: s.chars()
        invariant
            r@ == it.seq().take(it.index() as int),
            it.seq() == s@,
    {
        r.push(c);
    }
    r
}

/// Builds a `String` holding exactly the given characters.
pub fn string_of(v: &[char]) -> (r: String)
    ensures
        r@ == v@,
{
    let mut r = String::new();
    let n = v.len();
    for i in 0..n
        invariant
            n == v@.len(),
            r@ == v@.take(i as int),
    {
        push_char(&mut r, v[i]);
        assert(v@.take(i + 1) == v@.take(i as int).push(v@[i as int]));
    }
    assert(v@.take(n as int) == v@);
    r
}

/// Whether two character sequences are equal.
pub fn chars_eq(a: &[char], b: &[char]) -> (r: bool)
    ensures
        r == (a@ == b@),
{
    if a.len() != b.len() {
        return false;
    }
    let n = a.len();
    for i in 0..n
        invariant
            n == a@.len(),
            n == b@.len(),
            forall|j: int| 0 <= j < i ==> a@[j] == b@[j],
    {
        if a[i] != b[i] {
            return false;
        }
    }
    assert(a@ =~= b@);
    true
}

/// A copy of the characters `v[from..to]`.
pub fn copy_range(v: &[char], from: usize, to: usize) -> (r: Vec<char>)
    requires
        from <= to <= v@.len(),
    ensures
        r@ == v@.subrange(from as int, to as int),
{
    let mut r: Vec<char> = Vec::new();
    let mut i = from;
    while i < to
        invariant
            from <= i <= to <= v@.len(),
            r@ == v@.subrange(from as int, i as int),
        decreases to - i,
    {
        r.push(v[i]);
        assert(v@.subrange(from as int, i + 1) == v@.subrange(from as int, i as int).push(v@[i as int]));
        i = i + 1;
    }
    r
}

/// Index of the first `c` in `s`, or -1 when `s` has none.
pub open spec fn char_index(s: Seq<char>, c: char) -> int
    decreases s.len(),
{
    if s.len() == 0 {
        -1
    } else if s[0] == c {
        0
    } else {
        let r = char_index(s.drop_first(), c);
        if r < 0 {
            -1
        } else {
            r + 1
        }
    }
}

/// Index of the last `c` in `s`, or -1 when `s` has none.
pub open spec fn char_last_index(s: Seq<char>, c: char) -> int
    decreases s.len(),
{
    if s.len() == 0 {
        -1
    } else if s.last() == c {
        s.len() - 1
    } else {
        char_last_index(s.drop_last(), c)
    }
}

pub proof fn lemma_char_index(s: Seq<char>, c: char)
    ensures
        -1 <= char_index(s, c) < s.len(),
        char_index(s, c) >= 0 ==> s[char_index(s, c)] == c,
        forall|j: int| 0 <= j < s.len() && (char_index(s, c) < 0 || j < char_index(s, c)) ==> s[j] != c,
    decreases s.len(),
{
    if s.len() > 0 && s[0] != c {
        lemma_char_index(s.drop_first(), c);
        assert forall|j: int| 0 <= j < s.len() && (char_index(s, c) < 0 || j < char_index(s, c)) implies s[j] != c by {
            if j > 0 {
                assert(s[j] == s.drop_first()[j - 1]);
            }
        }
    }
}

/// The first index of `c` is determined by where `c` first occurs.
pub proof fn lemma_char_index_at(s: Seq<char>, c: char, k: int)
    requires
        -1 <= k <= s.len(),
        k < s.len() ==> (k >= 0 ==> s[k] == c),
        forall|j: int| 0 <= j < s.len() && (k < 0 || j < k) ==> s[j] != c,
        k == s.len() ==> false,
    ensures
        char_index(s, c) == k,
{
    lemma_char_index(s, c);
    let r = char_index(s, c);
    if r >= 0 && k >= 0 && r != k {
        if r < k { assert(s[r] != c); } else { assert(s[k] != c); }
    }
    if r >= 0 && k < 0 {
        assert(s[r] != c);
    }
    if r < 0 && k >= 0 {
        assert(s[k] != c);
    }
}

pub proof fn lemma_char_last_index(s: Seq<char>, c: char)
    ensures
        -1 <= char_last_index(s, c) < s.len(),
        char_last_index(s, c) >= 0 ==> s[char_last_index(s, c)] == c,
        forall|j: int| char_last_index(s, c) < j < s.len() && 0 <= j ==> s[j] != c,
    decreases s.len(),
{
    if s.len() > 0 && s.last() != c {
        lemma_char_last_index(s.drop_last(), c);
        assert forall|j: int| char_last_index(s, c) < j < s.len() && 0 <= j implies s[j] != c by {
            if j < s.len() - 1 {
                assert(s[j] == s.drop_last()[j]);
            }
        }
    }
}

/// The first index of `c` in `v`, or `None` (the spec's -1).
pub fn find_char(v: &[char], c: char) -> (r: Option<usize>)
    ensures
        match r {
            Some(i) => i as int == char_index(v@, c),
            None => char_index(v@, c) == -1,
        },
{
    let n = v.len();
    for i in 0..n
        invariant
            n == v@.len(),
            forall|j: int| 0 <= j < i ==> v@[j] != c,
    {
        if v[i] == c {
            proof { lemma_char_index_at(v@, c, i as int); }
            return Some(i);
        }
    }
    proof { lemma_char_index_at(v@, c, -1); }
    None
}

/// The last index of `c` in `v`, or `None` (the spec's -1).
pub fn rfind_char(v: &[char], c: char) -> (r: Option<usize>)
    ensures
        match r {
            Some(i) => i as int == char_last_index(v@, c),
            None => char_last_index(v@, c) == -1,
        },
{
    let mut i = v.len();
    assert(v@.take(i as int) == v@);
    while i > 0
        invariant
            i <= v@.len(),
            char_last_index(v@, c) == char_last_index(v@.take(i as int), c),
        decreases i,
    {
        let ghost t = v@.take(i as int);
        if v[i - 1] == c {
            return Some(i - 1);
        }
        assert(t.drop_last() == v@.take(i - 1));
        i = i - 1;
    }
    assert(v@.take(0) == Seq::<char>::empty());
    None
}

/// The `n`-th piece (counting from 0) of `s` split at every `c`, as
/// `str::split(c).nth(n)` yields it.
pub open spec fn nth_piece(s: Seq<char>, c: char, n: nat) -> Option<Seq<char>>
    decreases s.len(), n,
{
    let i = char_index(s, c);
    if n == 0 {
        if i < 0 {
            Some(s)
        } else {
            Some(s.take(i))
        }
    } else if i < 0 {
        None
    } else {
        proof { lemma_char_index(s, c); }
        nth_piece(s.skip(i + 1), c, (n - 1) as nat)
    }
}

/// The last piece of `s` split at every `c`: what follows the last `c`.
pub open spec fn last_piece(s: Seq<char>, c: char) -> Seq<char> {
    s.skip(char_last_index(s, c) + 1)
}

/// The last non-empty piece of `s` split at every `c`, as
/// `str::rsplit(c).find(|p| !p.is_empty())` yields it.
pub open spec fn last_nonempty_piece(s: Seq<char>, c: char) -> Option<Seq<char>>
    decreases s.len(),
{
    let k = char_last_index(s, c);
    if s.skip(k + 1).len() > 0 {
        Some(s.skip(k + 1))
    } else if k < 0 {
        None
    } else {
        proof { lemma_char_last_index(s, c); }
        last_nonempty_piece(s.take(k), c)
    }
}

/// `str::split(c).nth(n)` on characters.
pub fn nth_piece_of(v: &[char], c: char, n: usize) -> (r: Option<Vec<char>>)
    ensures
        match r {
            Some(p) => nth_piece(v@, c, n as nat) == Some(p@),
            None => nth_piece(v@, c, n as nat).is_none(),
        },
{
    let len = v.len();
    let mut start: usize = 0;
    let mut k: usize = n;
    assert(v@.skip(0) == v@);
    loop
        invariant
            start <= len == v@.len(),
            k <= n,
            nth_piece(v@, c, n as nat) == nth_piece(v@.skip(start as int), c, k as nat),
        decreases len - start, k,
    {
        let rest = &v[start..len];
        assert(rest@ == v@.skip(start as int));
        let i = find_char(rest, c);
        proof { lemma_char_index(rest@, c); }
        match i {
            None => {
                if k == 0 {
                    return Some(copy_range(v, start, len));
                } else {
                    return None;
                }
            },
            Some(i) => {
                if k == 0 {
                    let r = copy_range(v, start, start + i);
                    assert(r@ == rest@.take(i as int));
                    return Some(r);
                }
                assert(rest@.skip(i + 1) == v@.skip(start + i + 1));
                start = start + i + 1;
                k = k - 1;
            },
        }
    }
}

/// What follows the last `c` in `v` (all of `v` when it holds none).
pub fn last_piece_of(v: &[char], c: char) -> (r: Vec<char>)
    ensures
        r@ == last_piece(v@, c),
{
    proof { lemma_char_last_index(v@, c); }
    match rfind_char(v, c) {
        Some(i) => {
            let n = v.len();
            copy_range(v, i + 1, n)
        },
        None => {
            let r = copy_range(v, 0, v.len());
            assert(v@.skip(0) == v@);
            r
        },
    }
}

/// `str::rsplit(c).find(|p| !p.is_empty())` on characters.
pub fn last_nonempty_piece_of(v: &[char], c: char) -> (r: Option<Vec<char>>)
    ensures
        match r {
            Some(p) => last_nonempty_piece(v@, c) == Some(p@),
            None => last_nonempty_piece(v@, c).is_none(),
        },
{
    let mut end = v.len();
    assert(v@.take(end as int) == v@);
    loop
        invariant
            end <= v@.len(),
            last_nonempty_piece(v@, c) == last_nonempty_piece(v@.take(end as int), c),
        decreases end,
    {
        let head = &v[0..end];
        assert(head@ == v@.take(end as int));
        proof { lemma_char_last_index(head@, c); }
        let k = rfind_char(head, c);
        match k {
            None => {
                if end > 0 {
                    let r = copy_range(v, 0, end);
                    assert(head@.skip(0) == head@);
                    return Some(r);
                }
                return None;
            },
            Some(k) => {
                if k + 1 < end {
                    let r = copy_range(v, k + 1, end);
                    assert(r@ == head@.skip(k + 1));
                    return Some(r);
                }
                assert(head@.take(k as int) == v@.take(k as int));
                end = k;
            },
        }
    }
}

/// Unicode `White_Space`, the set `char::is_whitespace` and `str::trim` use.
pub open spec fn white_space(c: char) -> bool {
    let u = c as u32;
    (0x09 <= u <= 0x0D) || u == 0x20 || u == 0x85 || u == 0xA0 || u == 0x1680 || (0x2000 <= u
        <= 0x200A) || u == 0x2028 || u == 0x2029 || u == 0x202F || u == 0x205F || u == 0x3000
}

/// Whether `c` is Unicode white space.
pub fn is_white_space(c: char) -> (r: bool)
    ensures
        r == white_space(c),
{
    let u = c as u32;
    (0x09 <= u && u <= 0x0D) || u == 0x20 || u == 0x85 || u == 0xA0 || u == 0x1680 || (0x2000
        <= u && u <= 0x200A) || u == 0x2028 || u == 0x2029 || u == 0x202F || u == 0x205F || u
        == 0x3000
}

/// `s` without its leading white space.
pub open spec fn trim_start(s: Seq<char>) -> Seq<char>
    decreases s.len(),
{
    if s.len() > 0 && white_space(s[0]) {
        trim_start(s.drop_first())
    } else {
        s
    }
}

/// `s` without its trailing white space.
pub open spec fn trim_end(s: Seq<char>) -> Seq<char>
    decreases s.len(),
{
    if s.len() > 0 && white_space(s.last()) {
        trim_end(s.drop_last())
    } else {
        s
    }
}

/// `s` without leading and trailing white space, as `str::trim` gives it.
pub open spec fn trimmed(s: Seq<char>) -> Seq<char> {
    trim_end(trim_start(s))
}

proof fn lemma_trim_start_shape(s: Seq<char>)
    ensures
        trim_start(s).len() == 0 || !white_space(trim_start(s)[0]),
    decreases s.len(),
{
    if s.len() > 0 && white_space(s[0]) {
        lemma_trim_start_shape(s.drop_first());
    }
}

proof fn lemma_trim_end_shape(s: Seq<char>)
    ensures
        trim_end(s).len() <= s.len(),
        trim_end(s) == s.take(trim_end(s).len() as int),
        trim_end(s).len() == 0 || !white_space(trim_end(s).last()),
    decreases s.len(),
{
    if s.len() > 0 && white_space(s.last()) {
        lemma_trim_end_shape(s.drop_last());
        assert(s.drop_last().take(trim_end(s).len() as int) == s.take(trim_end(s).len() as int));
    } else {
        assert(s.take(s.len() as int) == s);
    }
}

/// Trimming twice gives what trimming once gives.
pub proof fn lemma_trimmed_idempotent(s: Seq<char>)
    ensures
        trimmed(trimmed(s)) == trimmed(s),
{
    let a = trim_start(s);
    let e = trim_end(a);
    lemma_trim_start_shape(s);
    lemma_trim_end_shape(a);
    if e.len() > 0 {
        assert(e[0] == a[0]);
    }
    assert(trim_start(e) == e);
    assert(trim_end(e) == e);
}

/// `str::trim` on characters.
pub fn trim(v: &[char]) -> (r: Vec<char>)
    ensures
        r@ == trimmed(v@),
{
    let n = v.len();
    let mut a: usize = 0;
    assert(v@.skip(0) == v@);
    while a < n && is_white_space(v[a])
        invariant
            a <= n == v@.len(),
            trim_start(v@) == trim_start(v@.skip(a as int)),
        decreases n - a,
    {
        assert(v@.skip(a as int).drop_first() == v@.skip(a + 1));
        a = a + 1;
    }
    assert(trim_start(v@) == v@.skip(a as int));
    let mut b: usize = n;
    assert(v@.skip(a as int).take((n - a) as int) == v@.skip(a as int));
    while b > a && is_white_space(v[b - 1])
        invariant
            a <= b <= n == v@.len(),
            trimmed(v@) == trim_end(v@.skip(a as int).take(b - a)),
        decreases b,
    {
        assert(v@.skip(a as int).take(b - a).drop_last() == v@.skip(a as int).take(b - 1 - a));
        b = b - 1;
    }
    let r = copy_range(v, a, b);
    assert(r@ == v@.skip(a as int).take(b - a));
    r
}

/// `p` is a prefix of `s`.
pub open spec fn has_prefix(s: Seq<char>, p: Seq<char>) -> bool {
    p.len() <= s.len() && s.take(p.len() as int) == p
}

/// Whether `p` is a prefix of `v`.
pub fn starts_with(v: &[char], p: &[char]) -> (r: bool)
    ensures
        r == has_prefix(v@, p@),
{
    let n = v.len();
    let m = p.len();
    if m > n {
        return false;
    }
    let head = &v[0..m];
    assert(head@ == v@.take(m as int));
    chars_eq(head, p)
}

/// `p` occurs in `s` starting at index `i`.
pub open spec fn occurs_at(s: Seq<char>, p: Seq<char>, i: int) -> bool {
    0 <= i && i + p.len() <= s.len() && s.subrange(i, i + p.len()) == p
}

/// `p` occurs somewhere in `s`.
pub open spec fn contains_seq(s: Seq<char>, p: Seq<char>) -> bool {
    exists|i: int| occurs_at(s, p, i)
}

/// The first place where `p` occurs in `v`.
pub fn find_seq(v: &[char], p: &[char]) -> (r: Option<usize>)
    ensures
        match r {
            Some(i) => occurs_at(v@, p@, i as int) && forall|j: int| 0 <= j < i ==> !occurs_at(v@, p@, j),
            None => forall|j: int| !occurs_at(v@, p@, j),
        },
{
    let n = v.len();
    let m = p.len();
    if m > n {
        return None;
    }
    let last = n - m;
    let mut i: usize = 0;
    while i <= last
        invariant
            last == n - m,
            m <= n,
            n == v@.len(),
            m == p@.len(),
            forall|j: int| 0 <= j < i ==> !occurs_at(v@, p@, j),
        decreases last + 1 - i,
    {
        let piece = &v[i..i + m];
        if chars_eq(piece, p) {
            return Some(i);
        }
        if i == last {
            return None;
        }
        i = i + 1;
    }
    None
}

/// `v` contains `p`.
pub fn contains(v: &[char], p: &[char]) -> (r: bool)
    ensures
        r == contains_seq(v@, p@),
{
    match find_seq(v, p) {
        Some(_) => true,
        None => false,
    }
}

/// `a` orders strictly before `b`, character by character (the order `str`
/// comparison gives, UTF-8 bytes ordering as code points do).
pub open spec fn lex_lt(a: Seq<char>, b: Seq<char>) -> bool
    decreases a.len(),
{
    if a.len() == 0 {
        b.len() > 0
    } else if b.len() == 0 {
        false
    } else if a[0] == b[0] {
        lex_lt(a.drop_first(), b.drop_first())
    } else {
        a[0] < b[0]
    }
}

/// Whether `a` orders strictly before `b`.
pub fn chars_lt(a: &[char], b: &[char]) -> (r: bool)
    ensures
        r == lex_lt(a@, b@),
{
    let n = a.len();
    let m = b.len();
    let mut i: usize = 0;
    assert(a@.skip(0) == a@);
    assert(b@.skip(0) == b@);
    loop
        invariant
            i <= n == a@.len(),
            i <= m == b@.len(),
            lex_lt(a@, b@) == lex_lt(a@.skip(i as int), b@.skip(i as int)),
        decreases n - i,
    {
        if i == n {
            return i < m;
        }
        if i == m {
            return false;
        }
        assert(a@.skip(i as int)[0] == a@[i as int]);
        assert(b@.skip(i as int)[0] == b@[i as int]);
        if a[i] != b[i] {
            return a[i] < b[i];
        }
        assert(a@.skip(i as int).drop_first() == a@.skip(i + 1));
        assert(b@.skip(i as int).drop_first() == b@.skip(i + 1));
        i = i + 1;
    }
}

/// The decimal digit for `d` (below ten).
pub open spec fn digit_char(d: nat) -> char {
    ((48 + d) as u8) as char
}

/// The decimal numeral of `n`, without leading zeros.
pub open spec fn decimal(n: nat) -> Seq<char>
    decreases n,
{
    if n < 10 {
        seq![digit_char(n)]
    } else {
        decimal(n / 10).push(digit_char(n % 10))
    }
}

fn digit_of(d: u128) -> (r: char)
    requires
        d < 10,
    ensures
        r == digit_char(d as nat),
{
    ((48 + d) as u8) as char
}

/// The decimal numeral of `n`.
pub fn decimal_of(n: u128) -> (r: Vec<char>)
    ensures
        r@ == decimal(n as nat),
    decreases n,
{
    if n < 10 {
        let mut v = Vec::new();
        v.push(digit_of(n));
        assert(v@ == seq![digit_char(n as nat)]);
        v
    } else {
        let mut v = decimal_of(n / 10);
        v.push(digit_of(n % 10));
        v
    }
}

/// An ASCII decimal digit.
pub open spec fn is_digit(c: char) -> bool {
    '0' <= c <= '9'
}

/// The value of a string of decimal digits.
pub open spec fn digits_value(s: Seq<char>) -> nat
    decreases s.len(),
{
    if s.len() == 0 {
        0
    } else {
        digits_value(s.drop_last()) * 10 + ((s.last() as u32) - 48) as nat
    }
}

/// `s` without one leading `+`.
pub open spec fn unsigned_digits(s: Seq<char>) -> Seq<char> {
    if s.len() > 0 && s[0] == '+' {
        s.drop_first()
    } else {
        s
    }
}

/// Every character of `d` is a decimal digit.
pub open spec fn all_digits(d: Seq<char>) -> bool {
    forall|i: int| 0 <= i < d.len() ==> is_digit(#[trigger] d[i])
}

/// What `u64::from_str` gives: an optional `+`, then one or more digits whose
/// value fits in 64 bits.
pub open spec fn parse_u64(s: Seq<char>) -> Option<u64> {
    let d = unsigned_digits(s);
    if d.len() > 0 && all_digits(d) && digits_value(d) <= u64::MAX {
        Some(digits_value(d) as u64)
    } else {
        None
    }
}

proof fn lemma_digits_value_prefix(d: Seq<char>, i: int)
    requires
        0 <= i <= d.len(),
        forall|j: int| 0 <= j < d.len() ==> is_digit(#[trigger] d[j]),
    ensures
        digits_value(d.take(i)) <= digits_value(d),
    decreases d.len(),
{
    if i < d.len() {
        assert(d.drop_last().take(i) == d.take(i));
        assert forall|j: int| 0 <= j < d.drop_last().len() implies is_digit(#[trigger] d.drop_last()[j]) by {
            assert(d.drop_last()[j] == d[j]);
        }
        lemma_digits_value_prefix(d.drop_last(), i);
        assert(d.take(d.len() as int) == d);
    } else {
        assert(d.take(i) == d);
    }
}

/// `u64::from_str` on characters.
pub fn parse_u64_of(v: &[char]) -> (r: Option<u64>)
    ensures
        r == parse_u64(v@),
{
    let n = v.len();
    let mut i: usize = 0;
    if n > 0 && v[0] == '+' {
        i = 1;
    }
    let ghost d = unsigned_digits(v@);
    assert(d == v@.skip(i as int));
    if i == n {
        return None;
    }
    let mut value: u64 = 0;
    let start = i;
    assert(d.take(0) == Seq::<char>::empty());
    while i < n
        invariant
            start <= i <= n == v@.len(),
            start < n,
            d == v@.skip(start as int),
            d == unsigned_digits(v@),
            value as nat == digits_value(d.take(i - start)),
            forall|j: int| 0 <= j < i - start ==> is_digit(#[trigger] d[j]),
        decreases n - i,
    {
        let c = v[i];
        if !('0' <= c && c <= '9') {
            assert(d[i - start] == c);
            assert(!is_digit(d[i - start]));
            assert(!all_digits(d));
            return None;
        }
        let digit = ((c as u32) - 48) as u64;
        assert(d.take(i + 1 - start).drop_last() == d.take(i - start));
        assert(d.take(i + 1 - start).last() == c);
        let ghost next = digits_value(d.take(i + 1 - start));
        assert(next == value as nat * 10 + digit as nat);
        match value.checked_mul(10) {
            None => {
                proof {
                    if all_digits(d) {
                        lemma_digits_value_prefix(d, i + 1 - start);
                    }
                }
                return None;
            },
            Some(t) => match t.checked_add(digit) {
                None => {
                    proof {
                        if all_digits(d) {
                            lemma_digits_value_prefix(d, i + 1 - start);
                        }
                    }
                    return None;
                },
                Some(u) => {
                    value = u;
                },
            },
        }
        i = i + 1;
    }
    assert(d.take(n - start) == d);
    Some(value)
}

} // verus!
