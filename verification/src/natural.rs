//! The natural order of file names: a name is read as a sequence of tokens,
//! each a single non-digit character or a whole run of digits, and runs of
//! digits are compared by the number they spell.

use vstd::prelude::*;
use crate::text::{chars_eq, chars_lt, is_digit, lex_lt, copy_range};

verus! {

/// A token as an ordered triple: `(c, 0, 0)` for a non-digit character `c`,
/// `(48, value, length)` for a run of digits. Non-digit characters order
/// against a run of digits as they order against the digit `0`.
pub type Tok = (int, int, int);

/// Strict order of tokens: by code, then by number, then by run length
/// (more leading zeros last).
pub open spec fn tok_lt(a: Tok, b: Tok) -> bool {
    a.0 < b.0 || (a.0 == b.0 && (a.1 < b.1 || (a.1 == b.1 && a.2 < b.2)))
}

/// Lexicographic order of token sequences.
pub open spec fn toks_lt(a: Seq<Tok>, b: Seq<Tok>) -> bool
    decreases a.len(),
{
    if a.len() == 0 {
        b.len() > 0
    } else if b.len() == 0 {
        false
    } else if a[0] == b[0] {
        toks_lt(a.drop_first(), b.drop_first())
    } else {
        tok_lt(a[0], b[0])
    }
}

/// No token sequence orders before itself.
pub proof fn lemma_toks_irreflexive(a: Seq<Tok>)
    ensures
        !toks_lt(a, a),
    decreases a.len(),
{
    if a.len() > 0 {
        lemma_toks_irreflexive(a.drop_first());
    }
}

/// The order of token sequences is transitive.
pub proof fn lemma_toks_transitive(a: Seq<Tok>, b: Seq<Tok>, c: Seq<Tok>)
    requires
        toks_lt(a, b),
        toks_lt(b, c),
    ensures
        toks_lt(a, c),
    decreases a.len(),
{
    if a.len() > 0 && b.len() > 0 && c.len() > 0 {
        if a[0] == b[0] && b[0] == c[0] {
            lemma_toks_transitive(a.drop_first(), b.drop_first(), c.drop_first());
        }
    }
}

/// Of two token sequences, one orders before the other or they are equal.
pub proof fn lemma_toks_total(a: Seq<Tok>, b: Seq<Tok>)
    ensures
        toks_lt(a, b) || a == b || toks_lt(b, a),
    decreases a.len(),
{
    if a.len() > 0 && b.len() > 0 {
        if a[0] == b[0] {
            lemma_toks_total(a.drop_first(), b.drop_first());
            if a.drop_first() == b.drop_first() {
                assert(a == seq![a[0]] + a.drop_first());
                assert(b == seq![b[0]] + b.drop_first());
            }
        }
    } else if a.len() == 0 && b.len() == 0 {
        assert(a == b);
    }
}

/// Two token sequences never order before each other.
pub proof fn lemma_toks_asymmetric(a: Seq<Tok>, b: Seq<Tok>)
    requires
        toks_lt(a, b),
    ensures
        !toks_lt(b, a),
{
    if toks_lt(b, a) {
        lemma_toks_transitive(a, b, a);
        lemma_toks_irreflexive(a);
    }
}

/// Ten to the power `n`.
pub open spec fn pow10(n: nat) -> nat
    decreases n,
{
    if n == 0 {
        1
    } else {
        10 * pow10((n - 1) as nat)
    }
}

/// The number a run of decimal digits spells.
pub open spec fn run_value(s: Seq<char>) -> nat
    decreases s.len(),
{
    if s.len() == 0 {
        0
    } else {
        (((s[0] as int) - 48) * pow10((s.len() - 1) as nat) + run_value(s.drop_first())) as nat
    }
}

/// Every character of `s` is a decimal digit.
pub open spec fn digits_only(s: Seq<char>) -> bool {
    forall|i: int| 0 <= i < s.len() ==> is_digit(#[trigger] s[i])
}

/// The length of the run of digits `s` starts with.
pub open spec fn digit_run(s: Seq<char>) -> nat
    decreases s.len(),
{
    if s.len() > 0 && is_digit(s[0]) {
        1 + digit_run(s.drop_first())
    } else {
        0
    }
}

proof fn lemma_digit_run(s: Seq<char>, k: int)
    requires
        0 <= k <= s.len(),
        forall|m: int| 0 <= m < k ==> is_digit(#[trigger] s[m]),
        k == s.len() || !is_digit(s[k]),
    ensures
        digit_run(s) == k,
    decreases s.len(),
{
    if k > 0 {
        assert forall|m: int| 0 <= m < k - 1 implies is_digit(#[trigger] s.drop_first()[m]) by {
            assert(s.drop_first()[m] == s[m + 1]);
        }
        if k < s.len() {
            assert(s.drop_first()[k - 1] == s[k]);
        }
        lemma_digit_run(s.drop_first(), k - 1);
    }
}

/// A run of digits fits in its name, and a name that starts with a digit
/// starts a run of at least one.
pub proof fn lemma_digit_run_bound(s: Seq<char>)
    ensures
        digit_run(s) <= s.len(),
        s.len() > 0 && is_digit(s[0]) ==> digit_run(s) >= 1,
    decreases s.len(),
{
    if s.len() > 0 && is_digit(s[0]) {
        lemma_digit_run_bound(s.drop_first());
    }
}

/// The tokens of a name, in order.
pub open spec fn tokens(s: Seq<char>) -> Seq<Tok>
    decreases s.len(),
{
    if s.len() == 0 {
        Seq::empty()
    } else if is_digit(s[0]) {
        let k = digit_run(s);
        proof { lemma_digit_run_bound(s); }
        seq![(48int, run_value(s.take(k as int)) as int, k as int)] + tokens(s.skip(k as int))
    } else {
        seq![(s[0] as int, 0int, 0int)] + tokens(s.drop_first())
    }
}

/// A token of a name.
#[derive(Debug, Clone, PartialEq, Eq)]
pub enum NameToken {
    /// A character that is not a digit.
    Text(char),
    /// A whole run of digits.
    Number(Vec<char>),
}

/// The ordered triple of a token.
pub open spec fn token_view(t: NameToken) -> Tok {
    match t {
        NameToken::Text(c) => (c as int, 0, 0),
        NameToken::Number(d) => (48, run_value(d@) as int, d@.len() as int),
    }
}

/// A text token holds no digit; a number token holds one or more digits.
pub open spec fn token_wf(t: NameToken) -> bool {
    match t {
        NameToken::Text(c) => !is_digit(c),
        NameToken::Number(d) => d@.len() > 0 && digits_only(d@),
    }
}

/// The ordered triples of tokens.
pub open spec fn tokens_view(v: Seq<NameToken>) -> Seq<Tok> {
    v.map_values(|t: NameToken| token_view(t))
}

/// All tokens are well formed.
pub open spec fn tokens_wf(v: Seq<NameToken>) -> bool {
    forall|i: int| 0 <= i < v.len() ==> token_wf(#[trigger] v[i])
}

proof fn lemma_pow10_positive(n: nat)
    ensures
        pow10(n) >= 1,
    decreases n,
{
    if n > 0 {
        lemma_pow10_positive((n - 1) as nat);
    }
}

proof fn lemma_pow10_mono(m: nat, n: nat)
    requires
        m <= n,
    ensures
        pow10(m) <= pow10(n),
    decreases n,
{
    if m < n {
        lemma_pow10_mono(m, (n - 1) as nat);
        lemma_pow10_positive((n - 1) as nat);
    }
}

proof fn lemma_run_value_bounds(s: Seq<char>)
    requires
        digits_only(s),
    ensures
        run_value(s) < pow10(s.len()),
        s.len() > 0 && s[0] != '0' ==> run_value(s) >= pow10((s.len() - 1) as nat),
    decreases s.len(),
{
    if s.len() > 0 {
        let t = s.drop_first();
        assert forall|i: int| 0 <= i < t.len() implies is_digit(#[trigger] t[i]) by {
            assert(t[i] == s[i + 1]);
        }
        lemma_run_value_bounds(t);
        let p = pow10((s.len() - 1) as nat);
        let d = (s[0] as int) - 48;
        assert(is_digit(s[0]));
        assert(0 <= d <= 9);
        assert(d * p <= 9 * p) by (nonlinear_arith)
            requires
                d <= 9,
                p >= 0,
        ;
        assert(d * p >= 0) by (nonlinear_arith)
            requires
                d >= 0,
                p >= 0,
        ;
        if s[0] != '0' {
            assert(d >= 1);
            assert(d * p >= p) by (nonlinear_arith)
                requires
                    d >= 1,
                    p >= 0,
            ;
        }
    }
}

proof fn lemma_run_value_strip(s: Seq<char>, z: int)
    requires
        0 <= z <= s.len(),
        forall|i: int| 0 <= i < z ==> #[trigger] s[i] == '0',
    ensures
        run_value(s) == run_value(s.skip(z)),
    decreases z,
{
    if z > 0 {
        let t = s.drop_first();
        assert(s[0] == '0');
        assert forall|i: int| 0 <= i < z - 1 implies #[trigger] t[i] == '0' by {
            assert(t[i] == s[i + 1]);
        }
        lemma_run_value_strip(t, z - 1);
        assert(t.skip(z - 1) == s.skip(z));
    } else {
        assert(s.skip(0) == s);
    }
}

proof fn lemma_run_value_same_len(a: Seq<char>, b: Seq<char>)
    requires
        digits_only(a),
        digits_only(b),
        a.len() == b.len(),
    ensures
        (run_value(a) < run_value(b)) == lex_lt(a, b),
        (run_value(a) == run_value(b)) == (a == b),
    decreases a.len(),
{
    if a.len() == 0 {
        assert(a == b);
    } else {
        let ta = a.drop_first();
        let tb = b.drop_first();
        assert forall|i: int| 0 <= i < ta.len() implies is_digit(#[trigger] ta[i]) by {
            assert(ta[i] == a[i + 1]);
        }
        assert forall|i: int| 0 <= i < tb.len() implies is_digit(#[trigger] tb[i]) by {
            assert(tb[i] == b[i + 1]);
        }
        lemma_run_value_same_len(ta, tb);
        lemma_run_value_bounds(ta);
        lemma_run_value_bounds(tb);
        let p = pow10((a.len() - 1) as nat);
        let da = (a[0] as int) - 48;
        let db = (b[0] as int) - 48;
        assert(is_digit(a[0]) && is_digit(b[0]));
        if a[0] == b[0] {
            if ta == tb {
                assert(a == seq![a[0]] + ta);
                assert(b == seq![b[0]] + tb);
            } else {
                assert(a != b) by {
                    if a == b {
                        assert(ta == tb);
                    }
                }
            }
        } else {
            assert(a != b) by {
                if a == b {
                    assert(a[0] == b[0]);
                }
            }
            if da < db {
                assert(da * p + p <= db * p) by (nonlinear_arith)
                    requires
                        da + 1 <= db,
                        p >= 0,
                ;
            } else {
                assert(db * p + p <= da * p) by (nonlinear_arith)
                    requires
                        db + 1 <= da,
                        p >= 0,
                ;
            }
        }
    }
}

/// Number of leading zeros of `d`.
fn leading_zeros(d: &[char]) -> (z: usize)
    ensures
        z <= d@.len(),
        forall|i: int| 0 <= i < z ==> #[trigger] d@[i] == '0',
        z == d@.len() || d@[z as int] != '0',
{
    let n = d.len();
    let mut z: usize = 0;
    while z < n && d[z] == '0'
        invariant
            z <= n == d@.len(),
            forall|i: int| 0 <= i < z ==> #[trigger] d@[i] == '0',
        decreases n - z,
    {
        z = z + 1;
    }
    z
}

proof fn lemma_number_order(a: Seq<char>, b: Seq<char>, za: int, zb: int)
    requires
        digits_only(a),
        digits_only(b),
        0 <= za <= a.len(),
        0 <= zb <= b.len(),
        forall|i: int| 0 <= i < za ==> #[trigger] a[i] == '0',
        forall|i: int| 0 <= i < zb ==> #[trigger] b[i] == '0',
        za == a.len() || a[za] != '0',
        zb == b.len() || b[zb] != '0',
    ensures
        run_value(a) == run_value(a.skip(za)),
        run_value(b) == run_value(b.skip(zb)),
        a.len() - za < b.len() - zb ==> run_value(a) < run_value(b),
        a.len() - za == b.len() - zb ==> (run_value(a) < run_value(b)) == lex_lt(a.skip(za), b.skip(zb))
            && (run_value(a) == run_value(b)) == (a.skip(za) == b.skip(zb)),
{
    lemma_run_value_strip(a, za);
    lemma_run_value_strip(b, zb);
    let sa = a.skip(za);
    let sb = b.skip(zb);
    assert forall|i: int| 0 <= i < sa.len() implies is_digit(#[trigger] sa[i]) by {
        assert(sa[i] == a[za + i]);
    }
    assert forall|i: int| 0 <= i < sb.len() implies is_digit(#[trigger] sb[i]) by {
        assert(sb[i] == b[zb + i]);
    }
    lemma_run_value_bounds(sa);
    lemma_run_value_bounds(sb);
    if sa.len() < sb.len() {
        assert(sb[0] == b[zb]);
        lemma_pow10_mono(sa.len(), (sb.len() - 1) as nat);
    }
    if sa.len() == sb.len() {
        lemma_run_value_same_len(sa, sb);
    }
}

proof fn lemma_number_token_eq(a: Seq<char>, b: Seq<char>, za: int, zb: int)
    requires
        digits_only(a),
        digits_only(b),
        0 <= za <= a.len(),
        0 <= zb <= b.len(),
        forall|i: int| 0 <= i < za ==> #[trigger] a[i] == '0',
        forall|i: int| 0 <= i < zb ==> #[trigger] b[i] == '0',
        za == a.len() || a[za] != '0',
        zb == b.len() || b[zb] != '0',
    ensures
        (run_value(a) == run_value(b) && a.len() == b.len()) == (a == b),
{
    lemma_number_order(a, b, za, zb);
    lemma_number_order(b, a, zb, za);
    if run_value(a) == run_value(b) && a.len() == b.len() {
        assert(a.len() - za == b.len() - zb);
        assert(a.skip(za) == b.skip(zb));
        assert forall|i: int| 0 <= i < a.len() implies a[i] == b[i] by {
            if i < za {
            } else {
                assert(a[i] == a.skip(za)[i - za]);
                assert(b[i] == b.skip(zb)[i - zb]);
            }
        }
        assert(a == b);
    }
}

fn number_lt(a: &[char], b: &[char]) -> (r: bool)
    requires
        digits_only(a@),
        digits_only(b@),
    ensures
        r == tok_lt((48, run_value(a@) as int, a@.len() as int), (48, run_value(b@) as int, b@.len() as int)),
{
    let za = leading_zeros(a);
    let zb = leading_zeros(b);
    proof {
        lemma_number_order(a@, b@, za as int, zb as int);
        lemma_number_order(b@, a@, zb as int, za as int);
    }
    let sa = a.len() - za;
    let sb = b.len() - zb;
    if sa != sb {
        return sa < sb;
    }
    let ra = &a[za..a.len()];
    let rb = &b[zb..b.len()];
    assert(ra@ == a@.skip(za as int));
    assert(rb@ == b@.skip(zb as int));
    if !chars_eq(ra, rb) {
        return chars_lt(ra, rb);
    }
    a.len() < b.len()
}

fn token_lt(a: &NameToken, b: &NameToken) -> (r: bool)
    requires
        token_wf(*a),
        token_wf(*b),
    ensures
        r == tok_lt(token_view(*a), token_view(*b)),
{
    match (a, b) {
        (NameToken::Text(c), NameToken::Text(d)) => (*c as u32) < (*d as u32),
        (NameToken::Text(c), NameToken::Number(_)) => (*c as u32) < 48,
        (NameToken::Number(_), NameToken::Text(d)) => 48 < (*d as u32),
        (NameToken::Number(x), NameToken::Number(y)) => number_lt(x.as_slice(), y.as_slice()),
    }
}

fn token_eq(a: &NameToken, b: &NameToken) -> (r: bool)
    requires
        token_wf(*a),
        token_wf(*b),
    ensures
        r == (token_view(*a) == token_view(*b)),
{
    match (a, b) {
        (NameToken::Text(c), NameToken::Text(d)) => *c == *d,
        (NameToken::Text(c), NameToken::Number(_)) => false,
        (NameToken::Number(_), NameToken::Text(d)) => false,
        (NameToken::Number(x), NameToken::Number(y)) => {
            let zx = leading_zeros(x.as_slice());
            let zy = leading_zeros(y.as_slice());
            proof { lemma_number_token_eq(x@, y@, zx as int, zy as int); }
            chars_eq(x.as_slice(), y.as_slice())
        },
    }
}

/// Whether the token sequence `a` orders strictly before `b`.
pub fn tokens_lt(a: &[NameToken], b: &[NameToken]) -> (r: bool)
    requires
        tokens_wf(a@),
        tokens_wf(b@),
    ensures
        r == toks_lt(tokens_view(a@), tokens_view(b@)),
{
    let n = a.len();
    let m = b.len();
    let ghost va = tokens_view(a@);
    let ghost vb = tokens_view(b@);
    let mut i: usize = 0;
    assert(va.skip(0) == va);
    assert(vb.skip(0) == vb);
    loop
        invariant
            i <= n == a@.len(),
            i <= m == b@.len(),
            va == tokens_view(a@),
            vb == tokens_view(b@),
            tokens_wf(a@),
            tokens_wf(b@),
            toks_lt(va, vb) == toks_lt(va.skip(i as int), vb.skip(i as int)),
        decreases n - i,
    {
        if i == n {
            return i < m;
        }
        if i == m {
            return false;
        }
        assert(va.skip(i as int)[0] == token_view(a@[i as int]));
        assert(vb.skip(i as int)[0] == token_view(b@[i as int]));
        assert(token_wf(a@[i as int]));
        assert(token_wf(b@[i as int]));
        if !token_eq(&a[i], &b[i]) {
            return token_lt(&a[i], &b[i]);
        }
        assert(va.skip(i as int).drop_first() == va.skip(i + 1));
        assert(vb.skip(i as int).drop_first() == vb.skip(i + 1));
        i = i + 1;
    }
}

proof fn lemma_push_token(before: Seq<NameToken>, t: NameToken)
    requires
        tokens_wf(before),
        token_wf(t),
    ensures
        tokens_wf(before.push(t)),
        tokens_view(before.push(t)) == tokens_view(before).push(token_view(t)),
{
    assert forall|k: int| 0 <= k < before.push(t).len() implies token_wf(#[trigger] before.push(t)[k]) by {
        if k < before.len() {
            assert(before.push(t)[k] == before[k]);
        }
    }
    assert(tokens_view(before.push(t)) =~= tokens_view(before).push(token_view(t)));
}

/// The tokens of a name (see `tokens`).
pub fn name_tokens(v: &[char]) -> (r: Vec<NameToken>)
    ensures
        tokens_view(r@) == tokens(v@),
        tokens_wf(r@),
{
    let n = v.len();
    let mut r: Vec<NameToken> = Vec::new();
    let mut i: usize = 0;
    assert(v@.skip(0) == v@);
    while i < n
        invariant
            i <= n == v@.len(),
            tokens(v@) == tokens_view(r@) + tokens(v@.skip(i as int)),
            tokens_wf(r@),
        decreases n - i,
    {
        let ghost s = v@.skip(i as int);
        assert(s[0] == v@[i as int]);
        let c = v[i];
        if '0' <= c && c <= '9' {
            let mut j = i + 1;
            while j < n && '0' <= v[j] && v[j] <= '9'
                invariant
                    i < j <= n == v@.len(),
                    forall|k: int| i <= k < j ==> is_digit(#[trigger] v@[k]),
                decreases n - j,
            {
                j = j + 1;
            }
            proof {
                assert forall|k: int| 0 <= k < j - i implies is_digit(#[trigger] s[k]) by {
                    assert(s[k] == v@[i + k]);
                }
                if j < n {
                    assert(s[j - i] == v@[j as int]);
                }
                lemma_digit_run(s, j - i);
                assert(s.skip(j - i) == v@.skip(j as int));
            }
            let d = copy_range(v, i, j);
            assert(d@ == s.take(j - i));
            assert forall|k: int| 0 <= k < d@.len() implies is_digit(#[trigger] d@[k]) by {
                assert(d@[k] == s[k]);
            }
            let ghost before = r@;
            r.push(NameToken::Number(d));
            proof { lemma_push_token(before, NameToken::Number(d)); }
            assert(tokens_view(r@) + tokens(v@.skip(j as int)) == tokens_view(before) + tokens(s));
            i = j;
        } else {
            let ghost before = r@;
            r.push(NameToken::Text(c));
            proof {
                lemma_push_token(before, NameToken::Text(c));
                assert(s.drop_first() == v@.skip(i + 1));
                assert(tokens(s) == seq![(c as int, 0int, 0int)] + tokens(s.drop_first()));
                assert(tokens_view(before).push(token_view(NameToken::Text(c))) + tokens(v@.skip(i + 1))
                    == tokens_view(before) + (seq![(c as int, 0int, 0int)] + tokens(s.drop_first())));
            }
            i = i + 1;
        }
    }
    assert(v@.skip(n as int) == Seq::<char>::empty());
    assert(tokens_view(r@) + Seq::<Tok>::empty() == tokens_view(r@));
    r
}

proof fn lemma_digit_run_shape(s: Seq<char>)
    ensures
        digit_run(s) <= s.len(),
        forall|m: int| 0 <= m < digit_run(s) ==> is_digit(#[trigger] s[m]),
        digit_run(s) < s.len() ==> !is_digit(s[digit_run(s) as int]),
    decreases s.len(),
{
    if s.len() > 0 && is_digit(s[0]) {
        let t = s.drop_first();
        lemma_digit_run_shape(t);
        assert forall|m: int| 0 <= m < digit_run(s) implies is_digit(#[trigger] s[m]) by {
            if m > 0 {
                assert(s[m] == t[m - 1]);
            }
        }
        if digit_run(s) < s.len() {
            assert(s[digit_run(s) as int] == t[digit_run(t) as int]);
        }
    }
}

proof fn lemma_tokens_concat(a: Seq<char>, b: Seq<char>)
    requires
        a.len() == 0 || b.len() == 0 || !is_digit(a.last()) || !is_digit(b[0]),
    ensures
        tokens(a + b) == tokens(a) + tokens(b),
    decreases a.len(),
{
    let ab = a + b;
    if a.len() == 0 {
        assert(ab == b);
        assert(tokens(a) + tokens(b) == tokens(b));
    } else {
        assert(ab[0] == a[0]);
        if is_digit(a[0]) {
            lemma_digit_run_shape(a);
            lemma_digit_run_bound(a);
            let k = digit_run(a) as int;
            assert forall|m: int| 0 <= m < k implies is_digit(#[trigger] ab[m]) by {
                assert(ab[m] == a[m]);
            }
            if k < a.len() {
                assert(ab[k] == a[k]);
            } else if b.len() > 0 {
                assert(a.last() == a[k - 1]);
                assert(ab[k] == b[0]);
            }
            lemma_digit_run(ab, k);
            assert(ab.take(k) == a.take(k));
            let a2 = a.skip(k);
            assert(ab.skip(k) == a2 + b);
            if a2.len() > 0 {
                assert(a2.last() == a.last());
            }
            lemma_tokens_concat(a2, b);
            let t = seq![(48int, run_value(a.take(k)) as int, k)];
            assert(tokens(ab) == t + tokens(a2 + b));
            assert(tokens(a) == t + tokens(a2));
            assert(t + (tokens(a2) + tokens(b)) == (t + tokens(a2)) + tokens(b));
        } else {
            let a2 = a.drop_first();
            assert(ab.drop_first() == a2 + b);
            if a2.len() > 0 {
                assert(a2.last() == a.last());
            }
            lemma_tokens_concat(a2, b);
            let t = seq![(a[0] as int, 0int, 0int)];
            assert(tokens(ab) == t + tokens(a2 + b));
            assert(tokens(a) == t + tokens(a2));
            assert(t + (tokens(a2) + tokens(b)) == (t + tokens(a2)) + tokens(b));
        }
    }
}

proof fn lemma_tokens_of_run(d: Seq<char>, s: Seq<char>)
    requires
        d.len() > 0,
        digits_only(d),
        s.len() == 0 || !is_digit(s[0]),
    ensures
        tokens(d + s) == seq![(48int, run_value(d) as int, d.len() as int)] + tokens(s),
{
    let ds = d + s;
    assert(ds[0] == d[0]);
    assert forall|m: int| 0 <= m < d.len() implies is_digit(#[trigger] ds[m]) by {
        assert(ds[m] == d[m]);
    }
    if s.len() > 0 {
        assert(ds[d.len() as int] == s[0]);
    }
    lemma_digit_run(ds, d.len() as int);
    assert(ds.take(d.len() as int) == d);
    assert(ds.skip(d.len() as int) == s);
}

proof fn lemma_toks_common_prefix(c: Seq<Tok>, x: Seq<Tok>, y: Seq<Tok>)
    ensures
        toks_lt(c + x, c + y) == toks_lt(x, y),
    decreases c.len(),
{
    if c.len() == 0 {
        assert(c + x == x);
        assert(c + y == y);
    } else {
        assert((c + x)[0] == c[0]);
        assert((c + y)[0] == c[0]);
        assert((c + x).drop_first() == c.drop_first() + x);
        assert((c + y).drop_first() == c.drop_first() + y);
        lemma_toks_common_prefix(c.drop_first(), x, y);
    }
}

/// Two number tokens order by the numbers they spell: the smaller number
/// first.
pub proof fn lemma_number_tokens_order_by_value(x: NameToken, y: NameToken)
    requires
        x is Number,
        y is Number,
        run_value(x->Number_0@) < run_value(y->Number_0@),
    ensures
        tok_lt(token_view(x), token_view(y)),
        !tok_lt(token_view(y), token_view(x)),
{
}

/// Two names that differ only in one run of digits (a run not continued by
/// digits before or after it) order by the numbers the runs spell, whatever
/// their digits and lengths: the smaller number first.
pub proof fn lemma_digit_runs_order_by_value(p: Seq<char>, d1: Seq<char>, d2: Seq<char>, s: Seq<char>)
    requires
        p.len() == 0 || !is_digit(p.last()),
        s.len() == 0 || !is_digit(s[0]),
        d1.len() > 0,
        d2.len() > 0,
        digits_only(d1),
        digits_only(d2),
        run_value(d1) < run_value(d2),
    ensures
        toks_lt(tokens(p + d1 + s), tokens(p + d2 + s)),
        !toks_lt(tokens(p + d2 + s), tokens(p + d1 + s)),
{
    lemma_tokens_of_run(d1, s);
    lemma_tokens_of_run(d2, s);
    lemma_tokens_concat(p, d1 + s);
    lemma_tokens_concat(p, d2 + s);
    assert(p + d1 + s == p + (d1 + s));
    assert(p + d2 + s == p + (d2 + s));
    let t1 = seq![(48int, run_value(d1) as int, d1.len() as int)] + tokens(s);
    let t2 = seq![(48int, run_value(d2) as int, d2.len() as int)] + tokens(s);
    lemma_toks_common_prefix(tokens(p), t1, t2);
    lemma_toks_common_prefix(tokens(p), t2, t1);
    assert(t1[0] != t2[0]);
}

} // verus!
