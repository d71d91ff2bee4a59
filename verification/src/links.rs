//! Download links and update entries read from a release page.

use vstd::prelude::*;
use vstd::string::StringExecFns;
use crate::html::{
    check_selector, element_view, elements_view, groups_view, nested_matches,
    document_matches, select_in_document, select_in_matches, selector_error, ElementData,
};
use crate::natural::{
    lemma_toks_asymmetric, lemma_toks_irreflexive, lemma_toks_total, lemma_toks_transitive,
    digits_only, lemma_digit_runs_order_by_value, name_tokens, run_value, tokens, tokens_lt,
    tokens_view, tokens_wf, toks_lt, NameToken, Tok,
};
use crate::text::{
    chars_eq, chars_of, copy_range, has_prefix, nth_piece, nth_piece_of, starts_with, string_of,
    trim, trimmed, lemma_trimmed_idempotent, is_digit,
};

verus! {

/// The characters of each vector.
pub open spec fn cviews(v: Seq<Vec<char>>) -> Seq<Seq<char>> {
    v.map_values(|x: Vec<char>| x@)
}

/// The characters of each string.
pub open spec fn sviews(v: Seq<String>) -> Seq<Seq<char>> {
    v.map_values(|x: String| x@)
}

/// The start of a scheme-relative URL.
pub open spec fn double_slash() -> Seq<char> {
    seq!['/', '/']
}

/// The scheme given to a scheme-relative URL.
pub open spec fn https_scheme() -> Seq<char> {
    seq!['h', 't', 't', 'p', 's', ':']
}

/// The start every kept link has.
pub open spec fn http_word() -> Seq<char> {
    seq!['h', 't', 't', 'p']
}

/// An `href` as a link: trimmed, a scheme-relative `//` given `https:`, and
/// kept only when it then starts with `http`.
pub open spec fn normalized_href(h: Seq<char>) -> Option<Seq<char>> {
    let t = trimmed(h);
    let u = if has_prefix(t, double_slash()) {
        https_scheme() + t
    } else {
        t
    };
    if has_prefix(u, http_word()) {
        Some(u)
    } else {
        None
    }
}

/// The links that a list of matched anchors yields, in order.
pub open spec fn href_links(elems: Seq<(Option<Seq<char>>, Seq<char>)>) -> Seq<Seq<char>>
    decreases elems.len(),
{
    if elems.len() == 0 {
        Seq::empty()
    } else {
        let rest = href_links(elems.drop_last());
        match elems.last().0 {
            Some(h) => match normalized_href(h) {
                Some(u) => rest.push(u),
                None => rest,
            },
            None => rest,
        }
    }
}

/// Normalizes one `href` (see `normalized_href`).
pub fn normalize_href(h: &[char]) -> (r: Option<Vec<char>>)
    ensures
        match r {
            Some(u) => normalized_href(h@) == Some(u@),
            None => normalized_href(h@).is_none(),
        },
{
    let t = trim(h);
    let slashes = vec!['/', '/'];
    assert(slashes@ == double_slash());
    let u = if starts_with(t.as_slice(), slashes.as_slice()) {
        let mut u = vec!['h', 't', 't', 'p', 's', ':'];
        assert(u@ == https_scheme());
        let mut i: usize = 0;
        while i < t.len()
            invariant
                i <= t@.len(),
                u@ == https_scheme() + t@.take(i as int),
            decreases t@.len() - i,
        {
            u.push(t[i]);
            assert(t@.take(i + 1) == t@.take(i as int).push(t@[i as int]));
            i = i + 1;
        }
        assert(t@.take(t@.len() as int) == t@);
        u
    } else {
        t
    };
    let http = vec!['h', 't', 't', 'p'];
    assert(http@ == http_word());
    if starts_with(u.as_slice(), http.as_slice()) {
        Some(u)
    } else {
        None
    }
}

/// The links read from anchors, in document order (see `href_links`).
pub fn anchor_links(elems: &Vec<ElementData>) -> (r: Vec<Vec<char>>)
    ensures
        cviews(r@) == href_links(elements_view(elems@)),
{
    let mut r: Vec<Vec<char>> = Vec::new();
    let n = elems.len();
    for i in 0..n
        invariant
            n == elems@.len(),
            cviews(r@) == href_links(elements_view(elems@).take(i as int)),
    {
        let ghost before = elements_view(elems@).take(i as int);
        assert(elements_view(elems@).take(i + 1).drop_last() == before);
        assert(elements_view(elems@).take(i + 1).last() == element_view(elems@[i as int]));
        match &elems[i].attr {
            Some(h) => {
                let hc = chars_of(h.as_str());
                match normalize_href(hc.as_slice()) {
                    Some(u) => {
                        r.push(u);
                        assert(cviews(r@) == href_links(before).push(u@));
                    },
                    None => {},
                }
            },
            None => {},
        }
    }
    assert(elements_view(elems@).take(n as int) == elements_view(elems@));
    r
}

/// The links read from anchors grouped by their enclosing match, in order.
pub fn grouped_anchor_links(groups: &Vec<Vec<ElementData>>) -> (r: Vec<Vec<char>>)
    ensures
        cviews(r@) == href_links(groups_view(groups@).flatten()),
{
    let mut r: Vec<Vec<char>> = Vec::new();
    let n = groups.len();
    for g in 0..n
        invariant
            n == groups@.len(),
            cviews(r@) == href_links(groups_view(groups@).take(g as int).flatten()),
    {
        let group = &groups[g];
        let m = group.len();
        let ghost done = groups_view(groups@).take(g as int).flatten();
        let ghost cur = elements_view(group@);
        assert(groups_view(groups@).take(g + 1) == groups_view(groups@).take(g as int).push(cur));
        proof { groups_view(groups@).take(g as int).lemma_flatten_push(cur); }
        assert(done + cur.take(0) == done);
        for i in 0..m
            invariant
                m == group@.len(),
                cur == elements_view(group@),
                cviews(r@) == href_links(done + cur.take(i as int)),
        {
            assert((done + cur.take(i + 1)).drop_last() == done + cur.take(i as int));
            assert((done + cur.take(i + 1)).last() == element_view(group@[i as int]));
            match &group[i].attr {
                Some(h) => {
                    let hc = chars_of(h.as_str());
                    match normalize_href(hc.as_slice()) {
                        Some(u) => {
                            r.push(u);
                            assert(cviews(r@) == href_links(done + cur.take(i as int)).push(u@));
                        },
                        None => {},
                    }
                },
                None => {},
            }
        }
        assert(cur.take(m as int) == cur);
    }
    assert(groups_view(groups@).take(n as int) == groups_view(groups@));
    r
}

/// The file name a link carries: the piece after its first `#` (up to a
/// second `#`), or the whole link when it has no `#`.
pub open spec fn name_piece(s: Seq<char>) -> Seq<char> {
    match nth_piece(s, '#', 1) {
        Some(k) => k,
        None => s,
    }
}

/// What a link is ordered by: the tokens of its file name, so that names
/// sort naturally (`part9` before `part10`).
pub open spec fn sort_key(s: Seq<char>) -> Seq<Tok> {
    tokens(name_piece(s))
}

/// The sort key of a link.
pub fn sort_key_of(v: &[char]) -> (r: Vec<NameToken>)
    ensures
        tokens_view(r@) == sort_key(v@),
        tokens_wf(r@),
{
    let piece = match nth_piece_of(v, '#', 1) {
        Some(k) => k,
        None => {
            let r = copy_range(v, 0, v.len());
            assert(v@.subrange(0, v@.len() as int) == v@);
            r
        },
    };
    name_tokens(piece.as_slice())
}

/// Where a link with key `k` goes in `t`: before the first element whose
/// key orders after `k`.
pub open spec fn insert_pos(t: Seq<Seq<char>>, k: Seq<Tok>) -> nat
    decreases t.len(),
{
    if t.len() == 0 {
        0
    } else if toks_lt(k, sort_key(t[0])) {
        0
    } else {
        1 + insert_pos(t.drop_first(), k)
    }
}

/// `s` stably sorted by `sort_key`: each link in turn goes after every
/// link already placed whose key does not order after its own.
pub open spec fn key_sorted(s: Seq<Seq<char>>) -> Seq<Seq<char>>
    decreases s.len(),
{
    if s.len() == 0 {
        s
    } else {
        let t = key_sorted(s.drop_last());
        t.insert(insert_pos(t, sort_key(s.last())) as int, s.last())
    }
}

/// No link orders before an earlier one.
pub open spec fn sorted_by_key(r: Seq<Seq<char>>) -> bool {
    forall|i: int, j: int|
        0 <= i < j < r.len() ==> !toks_lt(#[trigger] sort_key(r[j]), #[trigger] sort_key(r[i]))
}

/// The links of `s` whose key is `k`, in their order in `s`.
pub open spec fn with_key(s: Seq<Seq<char>>, k: Seq<Tok>) -> Seq<Seq<char>> {
    s.filter(key_class(k))
}

/// Holds of the links whose key is `k`.
pub open spec fn key_class(k: Seq<Tok>) -> spec_fn(Seq<char>) -> bool {
    |x: Seq<char>| sort_key(x) == k
}

proof fn lemma_insert_pos(t: Seq<Seq<char>>, k: Seq<Tok>)
    ensures
        insert_pos(t, k) <= t.len(),
        forall|j: int| 0 <= j < insert_pos(t, k) ==> !toks_lt(k, #[trigger] sort_key(t[j])),
        insert_pos(t, k) < t.len() ==> toks_lt(k, sort_key(t[insert_pos(t, k) as int])),
    decreases t.len(),
{
    if t.len() > 0 && !toks_lt(k, sort_key(t[0])) {
        lemma_insert_pos(t.drop_first(), k);
        assert forall|j: int| 0 <= j < insert_pos(t, k) implies !toks_lt(k, #[trigger] sort_key(t[j])) by {
            if j > 0 {
                assert(t[j] == t.drop_first()[j - 1]);
            }
        }
        if insert_pos(t, k) < t.len() {
            assert(t[insert_pos(t, k) as int] == t.drop_first()[insert_pos(t.drop_first(), k) as int]);
        }
    }
}

proof fn lemma_filter_none(s: Seq<Seq<char>>, k: Seq<Tok>)
    requires
        forall|j: int| 0 <= j < s.len() ==> sort_key(#[trigger] s[j]) != k,
    ensures
        with_key(s, k) == Seq::<Seq<char>>::empty(),
    decreases s.len(),
{
    reveal(Seq::filter);
    if s.len() > 0 {
        assert(sort_key(s[s.len() - 1]) != k);
        assert forall|j: int| 0 <= j < s.drop_last().len() implies sort_key(#[trigger] s.drop_last()[j]) != k by {
            assert(s.drop_last()[j] == s[j]);
        }
        lemma_filter_none(s.drop_last(), k);
    }
}

/// Stable sorting by key: the result is ordered by key, and the links that
/// share a key keep the order they had.
pub proof fn lemma_key_sorted(s: Seq<Seq<char>>)
    ensures
        key_sorted(s).len() == s.len(),
        sorted_by_key(key_sorted(s)),
        forall|k: Seq<Tok>| #[trigger] with_key(key_sorted(s), k) == with_key(s, k),
    decreases s.len(),
{
    if s.len() > 0 {
        let s0 = s.drop_last();
        let x = s.last();
        let kx = sort_key(x);
        let t = key_sorted(s0);
        lemma_key_sorted(s0);
        lemma_insert_pos(t, kx);
        let p = insert_pos(t, kx) as int;
        let r = t.insert(p, x);
        assert(r == key_sorted(s));
        assert(r.len() == s.len());
        // every key from position p on orders after kx
        assert forall|j: int| p <= j < t.len() implies toks_lt(kx, #[trigger] sort_key(t[j])) by {
            if j > p {
                assert(!toks_lt(sort_key(t[j]), sort_key(t[p])));
                lemma_toks_total(sort_key(t[j]), sort_key(t[p]));
                if sort_key(t[j]) != sort_key(t[p]) {
                    lemma_toks_transitive(kx, sort_key(t[p]), sort_key(t[j]));
                }
            }
        }
        // every key before p orders no later than kx
        assert forall|j: int| 0 <= j < p implies !toks_lt(kx, #[trigger] sort_key(t[j])) by {}
        assert forall|i: int, j: int| 0 <= i < j < r.len() implies !toks_lt(#[trigger] sort_key(r[j]), #[trigger] sort_key(r[i])) by {
            if j < p {
                assert(r[i] == t[i] && r[j] == t[j]);
            } else if j == p {
                assert(r[i] == t[i]);
                assert(!toks_lt(kx, sort_key(t[i])));
            } else if i == p {
                assert(r[j] == t[j - 1]);
                assert(toks_lt(kx, sort_key(t[j - 1])));
                lemma_toks_asymmetric(kx, sort_key(t[j - 1]));
            } else if i < p {
                assert(r[i] == t[i] && r[j] == t[j - 1]);
                if i < j - 1 {
                } else {
                    lemma_toks_irreflexive(sort_key(t[i]));
                }
            } else {
                assert(r[i] == t[i - 1] && r[j] == t[j - 1]);
            }
        }
        assert forall|k: Seq<Tok>| #[trigger] with_key(r, k) == with_key(s, k) by {
            let pred = key_class(k);
            let a = t.take(p);
            let b = t.skip(p);
            assert(r == a + seq![x] + b);
            assert(t == a + b);
            Seq::filter_distributes_over_add(a + seq![x], b, pred);
            Seq::filter_distributes_over_add(a, seq![x], pred);
            Seq::filter_distributes_over_add(a, b, pred);
            assert(with_key(r, k) == a.filter(pred) + seq![x].filter(pred) + b.filter(pred));
            assert(with_key(t, k) == a.filter(pred) + b.filter(pred));
            assert(s.drop_last() == s0);
            assert(s.last() == x);
            reveal(Seq::filter);
            assert(seq![x].drop_last() == Seq::<Seq<char>>::empty());
            assert(Seq::<Seq<char>>::empty().filter(pred) == Seq::<Seq<char>>::empty());
            if kx == k {
                assert forall|j: int| 0 <= j < b.len() implies sort_key(#[trigger] b[j]) != k by {
                    assert(b[j] == t[p + j]);
                    assert(toks_lt(kx, sort_key(t[p + j])));
                    lemma_toks_irreflexive(kx);
                }
                lemma_filter_none(b, k);
                assert(pred(x));
                assert(seq![x].filter(pred) == seq![x]);
                assert(with_key(s, k) == with_key(s0, k).push(x));
                assert(a.filter(pred) + seq![x] + Seq::<Seq<char>>::empty() == a.filter(pred).push(x));
            } else {
                assert(!pred(x));
                assert(seq![x].filter(pred) == Seq::<Seq<char>>::empty());
                assert(with_key(s, k) == with_key(s0, k));
            }
        }
    }
}

/// Sorts links stably by their key (see `key_sorted`).
pub fn sort_links(items: &Vec<Vec<char>>) -> (r: Vec<Vec<char>>)
    ensures
        cviews(r@) == key_sorted(cviews(items@)),
        sorted_by_key(cviews(r@)),
        forall|k: Seq<Tok>| #[trigger] with_key(cviews(r@), k) == with_key(cviews(items@), k),
{
    proof { lemma_key_sorted(cviews(items@)); }
    let mut out: Vec<Vec<char>> = Vec::new();
    let mut keys: Vec<Vec<NameToken>> = Vec::new();
    let n = items.len();
    for i in 0..n
        invariant
            n == items@.len(),
            cviews(out@) == key_sorted(cviews(items@).take(i as int)),
            keys@.len() == out@.len(),
            forall|j: int| 0 <= j < keys@.len() ==> tokens_view(#[trigger] keys@[j]@) == sort_key(out@[j]@) && tokens_wf(keys@[j]@),
    {
        let x = copy_range(items[i].as_slice(), 0, items[i].len());
        assert(items@[i as int]@.subrange(0, items@[i as int]@.len() as int) == items@[i as int]@);
        let kx = sort_key_of(x.as_slice());
        let ghost t = cviews(out@);
        let mut p: usize = 0;
        assert(t.skip(0) == t);
        while p < out.len() && !tokens_lt(kx.as_slice(), keys[p].as_slice())
            invariant
                p <= out@.len(),
                t == cviews(out@),
                tokens_wf(kx@),
                keys@.len() == out@.len(),
                forall|j: int| 0 <= j < keys@.len() ==> tokens_view(#[trigger] keys@[j]@) == sort_key(out@[j]@) && tokens_wf(keys@[j]@),
                insert_pos(t, tokens_view(kx@)) == p + insert_pos(t.skip(p as int), tokens_view(kx@)),
            decreases out@.len() - p,
        {
            assert(t.skip(p as int)[0] == t[p as int]);
            assert(t.skip(p as int).drop_first() == t.skip(p + 1));
            p = p + 1;
        }
        proof {
            if p < out@.len() {
                assert(t.skip(p as int)[0] == t[p as int]);
            } else {
                assert(t.skip(p as int).len() == 0);
            }
        }
        let ghost s = cviews(items@).take(i + 1);
        assert(s.drop_last() == cviews(items@).take(i as int));
        assert(s.last() == x@);
        out.insert(p, x);
        keys.insert(p, kx);
        assert(cviews(out@) == t.insert(p as int, x@));
    }
    assert(cviews(items@).take(n as int) == cviews(items@));
    out
}

/// `s` with every later copy of a link dropped: each link stays where it
/// first occurs.
pub open spec fn dedup(s: Seq<Seq<char>>) -> Seq<Seq<char>>
    decreases s.len(),
{
    if s.len() == 0 {
        s
    } else {
        let r = dedup(s.drop_last());
        if r.contains(s.last()) {
            r
        } else {
            r.push(s.last())
        }
    }
}

/// Whether `items` holds `x`.
fn holds_link(items: &Vec<Vec<char>>, x: &Vec<char>) -> (r: bool)
    ensures
        r == cviews(items@).contains(x@),
{
    let n = items.len();
    for i in 0..n
        invariant
            n == items@.len(),
            forall|j: int| 0 <= j < i ==> items@[j]@ != x@,
    {
        if chars_eq(items[i].as_slice(), x.as_slice()) {
            assert(cviews(items@)[i as int] == x@);
            return true;
        }
    }
    assert forall|j: int| 0 <= j < cviews(items@).len() implies cviews(items@)[j] != x@ by {
        assert(cviews(items@)[j] == items@[j]@);
    }
    false
}

/// Drops every later copy of a link (see `dedup`).
pub fn dedup_links(items: Vec<Vec<char>>) -> (r: Vec<Vec<char>>)
    ensures
        cviews(r@) == dedup(cviews(items@)),
{
    let mut r: Vec<Vec<char>> = Vec::new();
    let n = items.len();
    for i in 0..n
        invariant
            n == items@.len(),
            cviews(r@) == dedup(cviews(items@).take(i as int)),
    {
        let ghost s = cviews(items@).take(i + 1);
        assert(s.drop_last() == cviews(items@).take(i as int));
        assert(s.last() == items@[i as int]@);
        if !holds_link(&r, &items[i]) {
            let x = copy_range(items[i].as_slice(), 0, items[i].len());
            assert(items@[i as int]@.subrange(0, items@[i as int]@.len() as int) == items@[i as int]@);
            r.push(x);
            assert(cviews(r@) == cviews(r@).drop_last().push(x@));
        }
    }
    assert(cviews(items@).take(n as int) == cviews(items@));
    r
}

/// The links a page offers: those inside spoiler blocks when there are any,
/// else all of them; then stably sorted by key, each link kept once.
pub open spec fn arranged_links(links: Seq<Seq<char>>, spoiler: Seq<Seq<char>>) -> Seq<Seq<char>> {
    dedup(key_sorted(if spoiler.len() > 0 { spoiler } else { links }))
}

/// Picks, orders and deduplicates links (see `arranged_links`).
pub fn arrange_links(links: Vec<Vec<char>>, spoiler: Vec<Vec<char>>) -> (r: Vec<String>)
    ensures
        sviews(r@) == arranged_links(cviews(links@), cviews(spoiler@)),
{
    let chosen = if spoiler.len() > 0 { spoiler } else { links };
    let sorted = sort_links(&chosen);
    let unique = dedup_links(sorted);
    let mut r: Vec<String> = Vec::new();
    let n = unique.len();
    for i in 0..n
        invariant
            n == unique@.len(),
            sviews(r@) == cviews(unique@).take(i as int),
    {
        r.push(string_of(unique[i].as_slice()));
        assert(cviews(unique@).take(i + 1) == cviews(unique@).take(i as int).push(unique@[i as int]@));
        assert(sviews(r@) == sviews(r@).drop_last().push(r@.last()@));
    }
    assert(cviews(unique@).take(n as int) == cviews(unique@));
    r
}

/// The selector for anchors that point at the download host.
pub open spec fn link_selector() -> Seq<char> {
    "a[href*='fuckingfast.co']"@
}

/// The selector for the collapsible blocks that list multi-part downloads.
pub open spec fn spoiler_selector() -> Seq<char> {
    "div.su-spoiler-content"@
}

/// The attribute a link is read from.
pub open spec fn href_attr() -> Seq<char> {
    "href"@
}

/// The error a selector that fails to parse is reported with.
pub open spec fn selector_message(e: Seq<char>) -> Seq<char> {
    "Selector: "@ + e
}

/// The error for a page without a single download link.
pub open spec fn no_link_message() -> Seq<char> {
    "no fuckingfast link found"@
}

/// What reading the download links of page `html` gives.
pub open spec fn page_links_result(html: Seq<char>) -> Result<Seq<Seq<char>>, Seq<char>> {
    match selector_error(link_selector()) {
        Some(e) => Err(selector_message(e)),
        None => {
            let links = href_links(document_matches(html, link_selector(), href_attr()));
            if links.len() == 0 {
                Err(no_link_message())
            } else {
                match selector_error(spoiler_selector()) {
                    Some(e) => Err(selector_message(e)),
                    None => Ok(
                        arranged_links(
                            links,
                            href_links(
                                nested_matches(html, spoiler_selector(), link_selector(), href_attr()).flatten(),
                            ),
                        ),
                    ),
                }
            }
        },
    }
}

fn selector_failure(e: String) -> (r: String)
    ensures
        r@ == selector_message(e@),
{
    let mut m = String::from_str("Selector: ");
    m.append(e.as_str());
    m
}

/// Both selectors link extraction uses parse.
pub open spec fn link_selectors_ok() -> bool {
    selector_error(link_selector()).is_none() && selector_error(spoiler_selector()).is_none()
}

/// Whether both selectors link extraction uses parse (see
/// `link_selectors_ok`).
pub fn link_selectors_parse() -> (r: bool)
    ensures
        r == link_selectors_ok(),
{
    check_selector("a[href*='fuckingfast.co']").is_none() && check_selector("div.su-spoiler-content").is_none()
}

/// The download links of a release page, spoiler-block links preferred,
/// ordered naturally by file name, each link kept once. With its selectors
/// parsing, it fails exactly when no matched anchor has an `href` that
/// gives a link, and then with the no-link message.
pub fn get_links_from_page(html: &str) -> (r: Result<Vec<String>, String>)
    ensures
        match r {
            Ok(v) => page_links_result(html@) == Ok::<Seq<Seq<char>>, Seq<char>>(sviews(v@)),
            Err(e) => page_links_result(html@) == Err::<Seq<Seq<char>>, Seq<char>>(e@),
        },
        link_selectors_ok() ==> (r is Err <==> !has_usable_anchor(
            document_matches(html@, link_selector(), href_attr()),
        )),
        link_selectors_ok() ==> (r matches Err(e) ==> e@ == no_link_message()),
        r matches Ok(v) ==> v.len() > 0,
{
    let r = links_of_page(html);
    proof {
        if link_selectors_ok() {
            lemma_page_links_fail_iff_no_anchor(html@);
        }
        lemma_page_links_not_empty(html@);
    }
    r
}

fn links_of_page(html: &str) -> (r: Result<Vec<String>, String>)
    ensures
        match r {
            Ok(v) => page_links_result(html@) == Ok::<Seq<Seq<char>>, Seq<char>>(sviews(v@)),
            Err(e) => page_links_result(html@) == Err::<Seq<Seq<char>>, Seq<char>>(e@),
        },
{
    let link_sel = "a[href*='fuckingfast.co']";
    let href = "href";
    if let Some(e) = check_selector(link_sel) {
        return Err(selector_failure(e));
    }
    let found = select_in_document(html, link_sel, href);
    let links = anchor_links(&found);
    if links.len() == 0 {
        return Err(String::from_str("no fuckingfast link found"));
    }
    let spoiler_sel = "div.su-spoiler-content";
    if let Some(e) = check_selector(spoiler_sel) {
        return Err(selector_failure(e));
    }
    let groups = select_in_matches(html, spoiler_sel, link_sel, href);
    let spoiler = grouped_anchor_links(&groups);
    Ok(arrange_links(links, spoiler))
}

/// An update package offered on a release page.
pub struct UpdateEntry {
    pub name: String,
    pub url: String,
}

/// The (name, url) of each entry.
pub open spec fn entries_view(v: Seq<UpdateEntry>) -> Seq<(Seq<char>, Seq<char>)> {
    v.map_values(|e: UpdateEntry| (e.name@, e.url@))
}

/// Some entry of `acc` has link `url`.
pub open spec fn has_url(acc: Seq<(Seq<char>, Seq<char>)>, url: Seq<char>) -> bool {
    exists|i: int| 0 <= i < acc.len() && #[trigger] acc[i].1 == url
}

/// The entries read from anchors in order: each with its trimmed text as
/// name and trimmed `href` as link, skipping anchors without either and
/// links already taken.
pub open spec fn update_entries(elems: Seq<(Option<Seq<char>>, Seq<char>)>) -> Seq<(Seq<char>, Seq<char>)>
    decreases elems.len(),
{
    if elems.len() == 0 {
        Seq::empty()
    } else {
        let acc = update_entries(elems.drop_last());
        match elems.last().0 {
            None => acc,
            Some(h) => {
                let url = trimmed(h);
                let name = trimmed(elems.last().1);
                if url.len() == 0 || name.len() == 0 || has_url(acc, url) {
                    acc
                } else {
                    acc.push((name, url))
                }
            },
        }
    }
}

fn find_url(entries: &Vec<UpdateEntry>, url: &String) -> (r: bool)
    ensures
        r == has_url(entries_view(entries@), url@),
{
    let n = entries.len();
    for i in 0..n
        invariant
            n == entries@.len(),
            forall|j: int| 0 <= j < i ==> entries@[j].url@ != url@,
    {
        if entries[i].url == *url {
            assert(entries_view(entries@)[i as int].1 == url@);
            return true;
        }
    }
    false
}

/// The update entries below grouped anchors (see `update_entries`).
pub fn collect_update_entries(groups: &Vec<Vec<ElementData>>) -> (r: Vec<UpdateEntry>)
    ensures
        entries_view(r@) == update_entries(groups_view(groups@).flatten()),
{
    let mut r: Vec<UpdateEntry> = Vec::new();
    let n = groups.len();
    for g in 0..n
        invariant
            n == groups@.len(),
            entries_view(r@) == update_entries(groups_view(groups@).take(g as int).flatten()),
    {
        let group = &groups[g];
        let m = group.len();
        let ghost done = groups_view(groups@).take(g as int).flatten();
        let ghost cur = elements_view(group@);
        assert(groups_view(groups@).take(g + 1) == groups_view(groups@).take(g as int).push(cur));
        proof { groups_view(groups@).take(g as int).lemma_flatten_push(cur); }
        assert(done + cur.take(0) == done);
        for i in 0..m
            invariant
                m == group@.len(),
                cur == elements_view(group@),
                entries_view(r@) == update_entries(done + cur.take(i as int)),
        {
            let ghost acc = entries_view(r@);
            assert((done + cur.take(i + 1)).drop_last() == done + cur.take(i as int));
            assert((done + cur.take(i + 1)).last() == element_view(group@[i as int]));
            match &group[i].attr {
                Some(h) => {
                    let url_chars = trim(chars_of(h.as_str()).as_slice());
                    let name_chars = trim(chars_of(group[i].text.as_str()).as_slice());
                    if url_chars.len() != 0 && name_chars.len() != 0 {
                        let url = string_of(url_chars.as_slice());
                        let name = string_of(name_chars.as_slice());
                        if !find_url(&r, &url) {
                            r.push(UpdateEntry { name, url });
                            assert(entries_view(r@) == acc.push((name@, url@)));
                        }
                    }
                },
                None => {},
            }
        }
        assert(cur.take(m as int) == cur);
    }
    assert(groups_view(groups@).take(n as int) == groups_view(groups@));
    r
}

/// The selector for the highlighted block that lists update packages.
pub open spec fn update_box_selector() -> Seq<char> {
    "div[style*='9aff612e']"@
}

/// The selector for container links.
pub open spec fn container_link_selector() -> Seq<char> {
    "a[href*='filecrypt.cc/Container/']"@
}

/// What reading the update entries of page `html` gives.
pub open spec fn page_updates(html: Seq<char>) -> Seq<(Seq<char>, Seq<char>)> {
    update_entries(update_anchors(html))
}

/// The update packages listed in the highlighted block of a release page.
pub fn parse_updates_from_page(html: &str) -> (r: Vec<UpdateEntry>)
    ensures
        entries_view(r@) == page_updates(html@),
{
    let box_sel = "div[style*='9aff612e']";
    let link_sel = "a[href*='filecrypt.cc/Container/']";
    if check_selector(box_sel).is_some() {
        return Vec::new();
    }
    if check_selector(link_sel).is_some() {
        return Vec::new();
    }
    let groups = select_in_matches(html, box_sel, link_sel, "href");
    collect_update_entries(&groups)
}

/// Every link read from an anchor starts with `http`.
pub proof fn lemma_href_links_are_http(elems: Seq<(Option<Seq<char>>, Seq<char>)>)
    ensures
        forall|i: int| 0 <= i < href_links(elems).len() ==> has_prefix(#[trigger] href_links(elems)[i], http_word()),
    decreases elems.len(),
{
    if elems.len() > 0 {
        let rest = href_links(elems.drop_last());
        lemma_href_links_are_http(elems.drop_last());
        let r = href_links(elems);
        assert forall|i: int| 0 <= i < r.len() implies has_prefix(#[trigger] r[i], http_word()) by {
            if i < rest.len() {
                assert(r[i] == rest[i]);
            } else {
                let h = elems.last().0.unwrap();
                assert(normalized_href(h) == Some(r[i]));
            }
        }
    }
}

proof fn lemma_dedup_contains(s: Seq<Seq<char>>)
    ensures
        forall|x: Seq<char>| #[trigger] dedup(s).contains(x) <==> s.contains(x),
    decreases s.len(),
{
    if s.len() > 0 {
        let s0 = s.drop_last();
        lemma_dedup_contains(s0);
        let d0 = dedup(s0);
        let d = dedup(s);
        assert forall|x: Seq<char>| #[trigger] d.contains(x) <==> s.contains(x) by {
            if s.contains(x) {
                let j = choose|j: int| 0 <= j < s.len() && s[j] == x;
                if j < s.len() - 1 {
                    assert(s0[j] == x);
                    assert(s0.contains(x));
                    assert(d0.contains(x));
                    let i = choose|i: int| 0 <= i < d0.len() && d0[i] == x;
                    assert(d[i] == x);
                } else if d0.contains(x) {
                    let i = choose|i: int| 0 <= i < d0.len() && d0[i] == x;
                    assert(d[i] == x);
                } else {
                    assert(d[d.len() - 1] == x);
                }
            }
            if d.contains(x) {
                let i = choose|i: int| 0 <= i < d.len() && d[i] == x;
                if i < d0.len() {
                    assert(d0[i] == x);
                    assert(d0.contains(x));
                    assert(s0.contains(x));
                    let j = choose|j: int| 0 <= j < s0.len() && s0[j] == x;
                    assert(s[j] == x);
                } else {
                    assert(s[s.len() - 1] == x);
                }
            }
        }
    }
}

/// After `dedup`, no link occurs twice; and a list ordered by key stays so.
proof fn lemma_dedup_distinct_sorted(s: Seq<Seq<char>>)
    ensures
        forall|i: int, j: int| 0 <= i < j < dedup(s).len() ==> #[trigger] dedup(s)[i] != #[trigger] dedup(s)[j],
        sorted_by_key(s) ==> sorted_by_key(dedup(s)),
    decreases s.len(),
{
    if s.len() > 0 {
        let s0 = s.drop_last();
        lemma_dedup_distinct_sorted(s0);
        lemma_dedup_contains(s0);
        let d0 = dedup(s0);
        let d = dedup(s);
        if !d0.contains(s.last()) {
            assert(d == d0.push(s.last()));
            assert forall|i: int, j: int| 0 <= i < j < d.len() implies #[trigger] d[i] != #[trigger] d[j] by {
                if j < d0.len() {
                    assert(d[i] == d0[i] && d[j] == d0[j]);
                } else {
                    assert(d[i] == d0[i]);
                    assert(d0.contains(d0[i]));
                }
            }
            if sorted_by_key(s) {
                assert forall|i: int, j: int| 0 <= i < j < s0.len() implies !toks_lt(#[trigger] sort_key(s0[j]), #[trigger] sort_key(s0[i])) by {
                    assert(s0[i] == s[i] && s0[j] == s[j]);
                }
                assert forall|i: int, j: int| 0 <= i < j < d.len() implies !toks_lt(#[trigger] sort_key(d[j]), #[trigger] sort_key(d[i])) by {
                    if j < d0.len() {
                        assert(d[i] == d0[i] && d[j] == d0[j]);
                    } else {
                        assert(d[i] == d0[i]);
                        assert(d0.contains(d0[i]));
                        assert(s0.contains(d0[i]));
                        let a = choose|a: int| 0 <= a < s0.len() && s0[a] == d0[i];
                        assert(s[a] == d0[i]);
                        assert(d[j] == s[s.len() - 1]);
                    }
                }
            }
        } else {
            if sorted_by_key(s) {
                assert forall|i: int, j: int| 0 <= i < j < s0.len() implies !toks_lt(#[trigger] sort_key(s0[j]), #[trigger] sort_key(s0[i])) by {
                    assert(s0[i] == s[i] && s0[j] == s[j]);
                }
            }
        }
    }
}

/// The links a page offers, as arranged: ordered by key, no link twice,
/// and holding exactly the links of the chosen list (the spoiler links when
/// there are any, else all links).
pub proof fn lemma_arranged_links(links: Seq<Seq<char>>, spoiler: Seq<Seq<char>>)
    ensures
        sorted_by_key(arranged_links(links, spoiler)),
        forall|i: int, j: int| 0 <= i < j < arranged_links(links, spoiler).len() ==> #[trigger] arranged_links(links, spoiler)[i] != #[trigger] arranged_links(links, spoiler)[j],
        forall|x: Seq<char>| #[trigger] arranged_links(links, spoiler).contains(x) <==> (if spoiler.len() > 0 { spoiler } else { links }).contains(x),
{
    let chosen = if spoiler.len() > 0 { spoiler } else { links };
    let t = key_sorted(chosen);
    lemma_key_sorted(chosen);
    lemma_dedup_distinct_sorted(t);
    lemma_dedup_contains(t);
    assert forall|x: Seq<char>| t.contains(x) <==> chosen.contains(x) by {
        broadcast use vstd::seq_lib::group_filter_ensures;
        let k = sort_key(x);
        assert(with_key(t, k) == with_key(chosen, k));
        if t.contains(x) {
            let j = choose|j: int| 0 <= j < t.len() && t[j] == x;
            t.lemma_filter_contains(key_class(k), j);
            chosen.lemma_filter_contains_rev(key_class(k), x);
        }
        if chosen.contains(x) {
            let j = choose|j: int| 0 <= j < chosen.len() && chosen[j] == x;
            chosen.lemma_filter_contains(key_class(k), j);
            t.lemma_filter_contains_rev(key_class(k), x);
        }
    }
}

/// No two update entries share a link, and each has a non-empty name and
/// link, both already trimmed.
pub proof fn lemma_update_entries(elems: Seq<(Option<Seq<char>>, Seq<char>)>)
    ensures
        ({
            let r = update_entries(elems);
            &&& forall|i: int, j: int| 0 <= i < j < r.len() ==> #[trigger] r[i].1 != #[trigger] r[j].1
            &&& forall|i: int|
                0 <= i < r.len() ==> (#[trigger] r[i]).0.len() > 0 && r[i].1.len() > 0
                    && trimmed(r[i].0) == r[i].0 && trimmed(r[i].1) == r[i].1
        }),
    decreases elems.len(),
{
    if elems.len() > 0 {
        lemma_update_entries(elems.drop_last());
        let acc = update_entries(elems.drop_last());
        let r = update_entries(elems);
        if r.len() > acc.len() {
            let h = elems.last().0.unwrap();
            lemma_trimmed_idempotent(h);
            lemma_trimmed_idempotent(elems.last().1);
            assert forall|i: int, j: int| 0 <= i < j < r.len() implies #[trigger] r[i].1 != #[trigger] r[j].1 by {
                if j == r.len() - 1 {
                    assert(r[i] == acc[i]);
                    if acc[i].1 == r[j].1 {
                        assert(has_url(acc, r[j].1));
                    }
                } else {
                    assert(r[i] == acc[i] && r[j] == acc[j]);
                }
            }
            assert forall|i: int| 0 <= i < r.len() implies (#[trigger] r[i]).0.len() > 0 && r[i].1.len() > 0
                && trimmed(r[i].0) == r[i].0 && trimmed(r[i].1) == r[i].1 by {
                if i < acc.len() {
                    assert(r[i] == acc[i]);
                }
            }
        }
    }
}

/// The update entries of a page: no two share a link, and each has a
/// non-empty name and link, both already trimmed.
pub proof fn lemma_page_updates(html: Seq<char>)
    ensures
        ({
            let r = page_updates(html);
            &&& forall|i: int, j: int| 0 <= i < j < r.len() ==> #[trigger] r[i].1 != #[trigger] r[j].1
            &&& forall|i: int|
                0 <= i < r.len() ==> (#[trigger] r[i]).0.len() > 0 && r[i].1.len() > 0
                    && trimmed(r[i].0) == r[i].0 && trimmed(r[i].1) == r[i].1
        }),
{
    lemma_update_entries(update_anchors(html));
}

/// An anchor whose `href` gives a link (see `normalized_href`).
pub open spec fn usable_anchor(e: (Option<Seq<char>>, Seq<char>)) -> bool {
    match e.0 {
        Some(h) => normalized_href(h).is_some(),
        None => false,
    }
}

/// Some anchor of `elems` gives a link.
pub open spec fn has_usable_anchor(elems: Seq<(Option<Seq<char>>, Seq<char>)>) -> bool {
    exists|i: int| 0 <= i < elems.len() && usable_anchor(#[trigger] elems[i])
}

proof fn lemma_href_links_empty(elems: Seq<(Option<Seq<char>>, Seq<char>)>)
    ensures
        href_links(elems).len() == 0 <==> !has_usable_anchor(elems),
    decreases elems.len(),
{
    if elems.len() > 0 {
        let e0 = elems.drop_last();
        lemma_href_links_empty(e0);
        if has_usable_anchor(e0) {
            let i = choose|i: int| 0 <= i < e0.len() && usable_anchor(#[trigger] e0[i]);
            assert(elems[i] == e0[i]);
        }
        if has_usable_anchor(elems) {
            let i = choose|i: int| 0 <= i < elems.len() && usable_anchor(#[trigger] elems[i]);
            if i < e0.len() {
                assert(e0[i] == elems[i]);
            }
        }
        if usable_anchor(elems.last()) {
            assert(usable_anchor(elems[elems.len() - 1]));
        }
    }
}

/// Whenever reading the links of a page succeeds, it gives at least one
/// link.
pub proof fn lemma_page_links_not_empty(html: Seq<char>)
    ensures
        page_links_result(html) matches Ok(v) ==> v.len() > 0,
{
    let links = href_links(document_matches(html, link_selector(), href_attr()));
    if links.len() > 0 {
        let spoiler = href_links(
            nested_matches(html, spoiler_selector(), link_selector(), href_attr()).flatten(),
        );
        lemma_arranged_links(links, spoiler);
        let chosen = if spoiler.len() > 0 { spoiler } else { links };
        assert(chosen.contains(chosen[0]));
        assert(arranged_links(links, spoiler).contains(chosen[0]));
    }
}

/// Reading the links of a page (its selectors parsing, which
/// `link_selectors_parse` tells) fails exactly when no anchor the link
/// selector matches has an `href` that gives a link, and then with the
/// no-link message.
pub proof fn lemma_page_links_fail_iff_no_anchor(html: Seq<char>)
    requires
        link_selectors_ok(),
    ensures
        page_links_result(html).is_err() <==> !has_usable_anchor(
            document_matches(html, link_selector(), href_attr()),
        ),
        page_links_result(html).is_err() ==> page_links_result(html) == Err::<
            Seq<Seq<char>>,
            Seq<char>,
        >(no_link_message()),
{
    lemma_href_links_empty(document_matches(html, link_selector(), href_attr()));
}

/// The entry an anchor offers: its trimmed text as name and its trimmed
/// `href` as link, when it has an `href` and both are non-empty.
pub open spec fn anchor_entry(e: (Option<Seq<char>>, Seq<char>)) -> Option<(Seq<char>, Seq<char>)> {
    match e.0 {
        Some(h) => if trimmed(h).len() > 0 && trimmed(e.1).len() > 0 {
            Some((trimmed(e.1), trimmed(h)))
        } else {
            None
        },
        None => None,
    }
}

/// Anchor `k` of `elems` offers an entry with link `url`.
pub open spec fn offers_url(elems: Seq<(Option<Seq<char>>, Seq<char>)>, k: int, url: Seq<char>) -> bool {
    anchor_entry(elems[k]) matches Some(p) && p.1 == url
}

/// Update entries follow document order, each taken from the first anchor
/// that offers its link, and every link an anchor offers has an entry: the
/// result `idx` gives, for each entry, the anchor it comes from.
pub proof fn lemma_update_entries_order(elems: Seq<(Option<Seq<char>>, Seq<char>)>) -> (idx: Seq<int>)
    ensures
        idx.len() == update_entries(elems).len(),
        forall|i: int|
            0 <= i < idx.len() ==> 0 <= #[trigger] idx[i] < elems.len() && anchor_entry(elems[idx[i]])
                == Some(update_entries(elems)[i]),
        forall|i: int, k: int|
            0 <= i < idx.len() && 0 <= k < idx[i] ==> !#[trigger] offers_url(elems, k, update_entries(elems)[i].1),
        forall|i: int, j: int| 0 <= i < j < idx.len() ==> #[trigger] idx[i] < #[trigger] idx[j],
        forall|k: int|
            0 <= k < elems.len() && (#[trigger] anchor_entry(elems[k])).is_some() ==> has_url(
                update_entries(elems),
                anchor_entry(elems[k]).unwrap().1,
            ),
    decreases elems.len(),
{
    if elems.len() == 0 {
        Seq::empty()
    } else {
        let e0 = elems.drop_last();
        let n = e0.len() as int;
        let idx0 = lemma_update_entries_order(e0);
        let acc = update_entries(e0);
        let r = update_entries(elems);
        assert(elems.last() == elems[n]);
        assert forall|k: int| 0 <= k < n implies #[trigger] elems[k] == e0[k] by {}
        if r.len() > acc.len() {
            let h = elems[n].0.unwrap();
            let url = trimmed(h);
            assert(r == acc.push((trimmed(elems[n].1), url)));
            assert(anchor_entry(elems[n]) == Some(r[n as int - (n - acc.len())]));
            let idx = idx0.push(n);
            assert forall|i: int|
                0 <= i < idx.len() implies 0 <= #[trigger] idx[i] < elems.len() && anchor_entry(elems[idx[i]]) == Some(r[i]) by {
                if i < acc.len() {
                    assert(idx[i] == idx0[i]);
                    assert(r[i] == acc[i]);
                    assert(elems[idx0[i]] == e0[idx0[i]]);
                }
            }
            assert forall|i: int, k: int|
                0 <= i < idx.len() && 0 <= k < idx[i] implies !#[trigger] offers_url(elems, k, r[i].1) by {
                assert(elems[k] == e0[k]);
                if i < acc.len() {
                    assert(idx[i] == idx0[i]);
                    assert(r[i] == acc[i]);
                    assert(!offers_url(e0, k, acc[i].1));
                } else {
                    if offers_url(elems, k, r[i].1) {
                        assert(anchor_entry(e0[k]).is_some());
                        assert(has_url(acc, anchor_entry(e0[k]).unwrap().1));
                        assert(has_url(acc, url));
                    }
                }
            }
            assert forall|i: int, j: int| 0 <= i < j < idx.len() implies #[trigger] idx[i] < #[trigger] idx[j] by {
                assert(idx[i] == idx0[i]);
                if j < acc.len() {
                    assert(idx[j] == idx0[j]);
                }
            }
            assert forall|k: int|
                0 <= k < elems.len() && (#[trigger] anchor_entry(elems[k])).is_some() implies has_url(
                    r,
                    anchor_entry(elems[k]).unwrap().1,
                ) by {
                if k < n {
                    assert(elems[k] == e0[k]);
                    assert(has_url(acc, anchor_entry(e0[k]).unwrap().1));
                    let i = choose|i: int| 0 <= i < acc.len() && #[trigger] acc[i].1 == anchor_entry(e0[k]).unwrap().1;
                    assert(r[i] == acc[i]);
                } else {
                    assert(r[acc.len() as int].1 == url);
                }
            }
            idx
        } else {
            assert(r == acc);
            assert forall|i: int|
                0 <= i < idx0.len() implies 0 <= #[trigger] idx0[i] < elems.len() && anchor_entry(elems[idx0[i]]) == Some(r[i]) by {
                assert(elems[idx0[i]] == e0[idx0[i]]);
            }
            assert forall|i: int, k: int|
                0 <= i < idx0.len() && 0 <= k < idx0[i] implies !#[trigger] offers_url(elems, k, r[i].1) by {
                assert(elems[k] == e0[k]);
                assert(!offers_url(e0, k, acc[i].1));
            }
            assert forall|k: int|
                0 <= k < elems.len() && (#[trigger] anchor_entry(elems[k])).is_some() implies has_url(
                    r,
                    anchor_entry(elems[k]).unwrap().1,
                ) by {
                if k < n {
                    assert(elems[k] == e0[k]);
                    assert(has_url(acc, anchor_entry(e0[k]).unwrap().1));
                }
            }
            idx0
        }
    }
}

/// The anchors the update entries of page `html` are read from: those in
/// the highlighted blocks that the container selector matches, in document
/// order (none when a selector fails to parse).
pub open spec fn update_anchors(html: Seq<char>) -> Seq<(Option<Seq<char>>, Seq<char>)> {
    if selector_error(update_box_selector()).is_some() || selector_error(container_link_selector()).is_some() {
        Seq::empty()
    } else {
        nested_matches(html, update_box_selector(), container_link_selector(), href_attr()).flatten()
    }
}

/// The update entries of a page follow the order of its anchors, each taken
/// from the first anchor that offers its link, and every link an anchor
/// offers has an entry: `idx` gives, for each entry, its anchor.
pub proof fn lemma_page_updates_order(html: Seq<char>) -> (idx: Seq<int>)
    ensures
        idx.len() == page_updates(html).len(),
        forall|i: int|
            0 <= i < idx.len() ==> 0 <= #[trigger] idx[i] < update_anchors(html).len() && anchor_entry(
                update_anchors(html)[idx[i]],
            ) == Some(page_updates(html)[i]),
        forall|i: int, k: int|
            0 <= i < idx.len() && 0 <= k < idx[i] ==> !#[trigger] offers_url(
                update_anchors(html),
                k,
                page_updates(html)[i].1,
            ),
        forall|i: int, j: int| 0 <= i < j < idx.len() ==> #[trigger] idx[i] < #[trigger] idx[j],
        forall|k: int|
            0 <= k < update_anchors(html).len() && (#[trigger] anchor_entry(update_anchors(html)[k])).is_some()
                ==> has_url(page_updates(html), anchor_entry(update_anchors(html)[k]).unwrap().1),
{
    lemma_update_entries_order(update_anchors(html))
}

/// Anchor `e` gives link `x`: it has an `href` that normalizes to `x`.
pub open spec fn gives_link(e: (Option<Seq<char>>, Seq<char>), x: Seq<char>) -> bool {
    e.0 matches Some(h) && normalized_href(h) == Some(x)
}

/// Some anchor inside a spoiler block of page `html` gives link `x`.
pub open spec fn spoiler_gives(html: Seq<char>, x: Seq<char>) -> bool {
    let n = nested_matches(html, spoiler_selector(), link_selector(), href_attr());
    exists|g: int, k: int| 0 <= g < n.len() && 0 <= k < n[g].len() && #[trigger] gives_link(n[g][k], x)
}

/// Some anchor the link selector matches on page `html` gives link `x`.
pub open spec fn page_gives(html: Seq<char>, x: Seq<char>) -> bool {
    let d = document_matches(html, link_selector(), href_attr());
    exists|k: int| 0 <= k < d.len() && #[trigger] gives_link(d[k], x)
}

proof fn lemma_href_links_members(e: Seq<(Option<Seq<char>>, Seq<char>)>, x: Seq<char>)
    ensures
        href_links(e).contains(x) <==> exists|k: int| 0 <= k < e.len() && #[trigger] gives_link(e[k], x),
    decreases e.len(),
{
    if e.len() > 0 {
        let e0 = e.drop_last();
        lemma_href_links_members(e0, x);
        let r0 = href_links(e0);
        let r = href_links(e);
        if r.contains(x) {
            let i = choose|i: int| 0 <= i < r.len() && r[i] == x;
            if i < r0.len() {
                assert(r[i] == r0[i]);
                assert(r0.contains(x));
                let k = choose|k: int| 0 <= k < e0.len() && #[trigger] gives_link(e0[k], x);
                assert(e[k] == e0[k]);
            } else {
                assert(gives_link(e[e.len() - 1], x));
            }
        }
        if exists|k: int| 0 <= k < e.len() && #[trigger] gives_link(e[k], x) {
            let k = choose|k: int| 0 <= k < e.len() && #[trigger] gives_link(e[k], x);
            if k < e0.len() {
                assert(e0[k] == e[k]);
                assert(r0.contains(x));
                let i = choose|i: int| 0 <= i < r0.len() && r0[i] == x;
                assert(r[i] == r0[i]);
            } else {
                assert(r[r.len() - 1] == x);
            }
        }
    }
}

proof fn lemma_flatten_gives(n: Seq<Seq<(Option<Seq<char>>, Seq<char>)>>, x: Seq<char>)
    ensures
        (exists|i: int| 0 <= i < n.flatten().len() && #[trigger] gives_link(n.flatten()[i], x))
            <==> (exists|g: int, k: int| 0 <= g < n.len() && 0 <= k < n[g].len() && #[trigger] gives_link(n[g][k], x)),
    decreases n.len(),
{
    if n.len() > 0 {
        let rest = n.drop_first();
        lemma_flatten_gives(rest, x);
        let f = n.flatten();
        assert(f == n[0] + rest.flatten());
        if exists|i: int| 0 <= i < f.len() && #[trigger] gives_link(f[i], x) {
            let i = choose|i: int| 0 <= i < f.len() && #[trigger] gives_link(f[i], x);
            if i < n[0].len() {
                assert(f[i] == n[0][i]);
                assert(gives_link(n[0][i], x));
            } else {
                let j = i - n[0].len();
                assert(f[i] == rest.flatten()[j]);
                assert(gives_link(rest.flatten()[j], x));
                let (g, k) = choose|g: int, k: int| 0 <= g < rest.len() && 0 <= k < rest[g].len() && #[trigger] gives_link(rest[g][k], x);
                assert(rest[g] == n[g + 1]);
                assert(gives_link(n[g + 1][k], x));
            }
        }
        if exists|g: int, k: int| 0 <= g < n.len() && 0 <= k < n[g].len() && #[trigger] gives_link(n[g][k], x) {
            let (g, k) = choose|g: int, k: int| 0 <= g < n.len() && 0 <= k < n[g].len() && #[trigger] gives_link(n[g][k], x);
            if g == 0 {
                assert(f[k] == n[0][k]);
                assert(gives_link(f[k], x));
            } else {
                assert(rest[g - 1] == n[g]);
                assert(gives_link(rest[g - 1][k], x));
                let j = choose|j: int| 0 <= j < rest.flatten().len() && #[trigger] gives_link(rest.flatten()[j], x);
                assert(f[n[0].len() + j] == rest.flatten()[j]);
                assert(gives_link(f[n[0].len() + j], x));
            }
        }
    }
}

/// With its selectors parsing and some matched anchor giving a link,
/// reading the links of a page succeeds, and a link is in the result
/// exactly when an anchor inside some spoiler block gives it, if any such
/// anchor gives a link at all, and otherwise exactly when some matched
/// anchor of the page gives it.
pub proof fn lemma_page_links_members(html: Seq<char>)
    requires
        link_selectors_ok(),
        has_usable_anchor(document_matches(html, link_selector(), href_attr())),
    ensures
        page_links_result(html) is Ok,
        forall|x: Seq<char>|
            #[trigger] page_links_result(html)->Ok_0.contains(x) <==> (if exists|y: Seq<char>| spoiler_gives(html, y) {
                spoiler_gives(html, x)
            } else {
                page_gives(html, x)
            }),
{
    let d = document_matches(html, link_selector(), href_attr());
    let n = nested_matches(html, spoiler_selector(), link_selector(), href_attr());
    let links = href_links(d);
    let spoiler = href_links(n.flatten());
    lemma_href_links_empty(d);
    lemma_arranged_links(links, spoiler);
    assert forall|x: Seq<char>| spoiler.contains(x) <==> spoiler_gives(html, x) by {
        lemma_href_links_members(n.flatten(), x);
        lemma_flatten_gives(n, x);
    }
    assert forall|x: Seq<char>| links.contains(x) <==> page_gives(html, x) by {
        lemma_href_links_members(d, x);
    }
    if exists|y: Seq<char>| spoiler_gives(html, y) {
        let y = choose|y: Seq<char>| spoiler_gives(html, y);
        assert(spoiler.contains(y));
        assert(spoiler.len() > 0);
    } else {
        if spoiler.len() > 0 {
            assert(spoiler.contains(spoiler[0]));
            assert(spoiler_gives(html, spoiler[0]));
        }
    }
}

/// In links sorted by key, of two links whose file names differ only in one
/// run of digits, the one whose run spells the smaller number comes first
/// (`part9` before `part10`).
pub proof fn lemma_sorted_links_by_number(
    items: Seq<Seq<char>>,
    i: int,
    j: int,
    p: Seq<char>,
    d1: Seq<char>,
    d2: Seq<char>,
    s: Seq<char>,
)
    requires
        0 <= i < key_sorted(items).len(),
        0 <= j < key_sorted(items).len(),
        name_piece(key_sorted(items)[i]) == p + d1 + s,
        name_piece(key_sorted(items)[j]) == p + d2 + s,
        p.len() == 0 || !is_digit(p.last()),
        s.len() == 0 || !is_digit(s[0]),
        d1.len() > 0,
        d2.len() > 0,
        digits_only(d1),
        digits_only(d2),
        run_value(d1) < run_value(d2),
    ensures
        i < j,
{
    lemma_key_sorted(items);
    lemma_digit_runs_order_by_value(p, d1, d2, s);
    let r = key_sorted(items);
    if j < i {
        assert(!toks_lt(sort_key(r[i]), sort_key(r[j])));
    } else if i == j {
        lemma_toks_irreflexive(tokens(p + d1 + s));
    }
}

} // verus!
