//! Turning a download-host page link into a direct download: window labels,
//! file names, the direct POST exchange and the resolver's polling decisions.

use vstd::prelude::*;
use vstd::string::StringExecFns;
use crate::registry::CtrlState;
use crate::text::{
    chars_eq, chars_of, contains, contains_seq, copy_range, decimal, decimal_of, find_char, find_seq,
    has_prefix,
    lemma_char_index,
    last_nonempty_piece, last_nonempty_piece_of, nth_piece, nth_piece_of, occurs_at, push_char,
    string_of,
};

verus! {

/// What `char::is_alphanumeric` answers for `c` (Unicode Alphabetic or Numeric).
pub uninterp spec fn char_alphanumeric(c: char) -> bool;

/// `char::is_alphanumeric`. Trusted: the answer is the Unicode property
/// lookup named by `char_alphanumeric`; nothing more of the tables is stated.
#[verifier::external_body]
fn is_alphanumeric(c: char) -> (r: bool)
    ensures
        r == char_alphanumeric(c),
{
    c.is_alphanumeric()
}

/// A character kept in a window label; every other one becomes `_`.
pub open spec fn label_char(c: char) -> char {
    if char_alphanumeric(c) || c == '-' || c == '/' || c == ':' || c == '_' {
        c
    } else {
        '_'
    }
}

/// A character a window label may hold.
pub open spec fn allowed_in_label(c: char) -> bool {
    char_alphanumeric(c) || c == '-' || c == '/' || c == ':' || c == '_'
}

/// The label characters of `s`, one for each.
pub open spec fn label_of(s: Seq<char>) -> Seq<char> {
    s.map_values(|c: char| label_char(c))
}

/// Replaces each character that may not stand in a window label by `_`.
pub fn sanitize_label(input: &str) -> (r: String)
    ensures
        r@ == label_of(input@),
{
    let mut r = String::new();
    for c in it: input.chars()
        invariant
            it.seq() == input@,
            r@ == it.seq().take(it.index() as int).map_values(|c: char| label_char(c)),
    {
        let keep = is_alphanumeric(c) || c == '-' || c == '/' || c == ':' || c == '_';
        if keep {
            push_char(&mut r, c);
        } else {
            push_char(&mut r, '_');
        }
        assert(it.seq().take(it.index() + 1) == it.seq().take(it.index() as int).push(c));
    }
    assert(input@.take(input@.len() as int) == input@);
    r
}

/// A window label holds only alphanumeric characters and `-`, `/`, `:`, `_`,
/// one for each character of the input.
pub proof fn lemma_label_chars_allowed(input: Seq<char>)
    ensures
        label_of(input).len() == input.len(),
        forall|i: int| 0 <= i < input.len() ==> allowed_in_label(#[trigger] label_of(input)[i]),
{
}

/// The file name a page link saves to: its `#` fragment when non-empty,
/// else its last non-empty `/` piece, else the whole link.
pub open spec fn link_filename(link: Seq<char>) -> Seq<char> {
    match nth_piece(link, '#', 1) {
        Some(f) if f.len() > 0 => f,
        _ => match last_nonempty_piece(link, '/') {
            Some(p) => p,
            None => link,
        },
    }
}

/// The file name a page link saves to (see `link_filename`).
pub fn filename_from_link(link: &str) -> (r: String)
    ensures
        r@ == link_filename(link@),
{
    let l = chars_of(link);
    match nth_piece_of(l.as_slice(), '#', 1) {
        Some(f) => {
            if f.len() > 0 {
                return string_of(f.as_slice());
            }
        },
        None => {},
    }
    match last_nonempty_piece_of(l.as_slice(), '/') {
        Some(p) => string_of(p.as_slice()),
        None => string_of(l.as_slice()),
    }
}

/// The file id of a page link: the last non-empty `/` piece of what comes
/// before its first `#`.
pub open spec fn link_file_id(link: Seq<char>) -> Option<Seq<char>> {
    last_nonempty_piece(nth_piece(link, '#', 0).unwrap(), '/')
}

/// The error for a link without a file id.
pub open spec fn no_file_id_message() -> Seq<char> {
    "no file id"@
}

/// The file id a direct resolution asks for.
pub fn direct_file_id(link: &str) -> (r: Result<String, String>)
    ensures
        match r {
            Ok(id) => link_file_id(link@) == Some(id@),
            Err(e) => link_file_id(link@).is_none() && e@ == no_file_id_message(),
        },
{
    let l = chars_of(link);
    proof { lemma_char_index(link@, '#'); }
    let base = match find_char(l.as_slice(), '#') {
        Some(i) => {
            let b = copy_range(l.as_slice(), 0, i);
            assert(b@ == l@.take(i as int));
            b
        },
        None => l,
    };
    match last_nonempty_piece_of(base.as_slice(), '/') {
        Some(id) => Ok(string_of(id.as_slice())),
        None => Err(String::from_str("no file id")),
    }
}

/// The file page of id `id` on the download host.
pub open spec fn file_page_url(id: Seq<char>) -> Seq<char> {
    "https://fuckingfast.co/f/"@ + id
}

/// The endpoint a direct resolution posts to.
pub open spec fn file_go_url(id: Seq<char>) -> Seq<char> {
    "https://fuckingfast.co/f/"@ + id + "/go"@
}

/// Builds the file page URL of `id`.
pub fn file_page(id: &str) -> (r: String)
    ensures
        r@ == file_page_url(id@),
{
    let mut r = String::from_str("https://fuckingfast.co/f/");
    r.append(id);
    r
}

/// Builds the endpoint URL of `id`.
pub fn file_go(id: &str) -> (r: String)
    ensures
        r@ == file_go_url(id@),
{
    let mut r = file_page(id);
    r.append("/go");
    r
}

/// What the answer to a direct resolution settles.
pub enum DirectStep {
    /// The host refused or throttled the request.
    Refused(String),
    /// The redirect header named the download URL.
    Found(String),
    /// The body has to be searched.
    ReadBody,
}

/// The error for a refused or throttled direct resolution.
pub open spec fn refused_message() -> Seq<char> {
    "Cloudflare/RateLimited"@
}

/// A redirect target as an absolute URL on the download host.
pub open spec fn absolute_redirect(target: Seq<char>) -> Seq<char> {
    if target.len() > 0 && target[0] == '/' {
        "https://fuckingfast.co"@ + target
    } else {
        target
    }
}

/// Judges the status and the `HX-Redirect` header (when readable) of the
/// answer to a direct resolution.
pub fn direct_response(status: u16, redirect: Option<&str>) -> (r: DirectStep)
    ensures
        status == 429 || status == 403 ==> (r matches DirectStep::Refused(e) && e@ == refused_message()),
        status != 429 && status != 403 ==> match redirect {
            Some(t) => (r matches DirectStep::Found(u) && u@ == absolute_redirect(t@)),
            None => (r is ReadBody),
        },
{
    if status == 429 || status == 403 {
        return DirectStep::Refused(String::from_str("Cloudflare/RateLimited"));
    }
    match redirect {
        Some(t) => {
            let c = chars_of(t);
            if c.len() > 0 && c[0] == '/' {
                let mut u = String::from_str("https://fuckingfast.co");
                u.append(t);
                DirectStep::Found(u)
            } else {
                DirectStep::Found(String::from_str(t))
            }
        },
        None => DirectStep::ReadBody,
    }
}

/// The prefix every direct download URL starts with.
pub open spec fn download_prefix() -> Seq<char> {
    "https://dl.fuckingfast.co/"@
}

/// A character that ends a URL quoted in markup.
pub open spec fn url_terminator(c: char) -> bool {
    c == '"' || c == '\'' || c == ' ' || c == '<' || c == '>' || c == '\r' || c == '\n'
}

/// Index of the first URL terminator in `s`, or its length.
pub open spec fn terminator_index(s: Seq<char>) -> int
    decreases s.len(),
{
    if s.len() == 0 {
        0
    } else if url_terminator(s[0]) {
        0
    } else {
        1 + terminator_index(s.drop_first())
    }
}

proof fn lemma_terminator_index(s: Seq<char>)
    ensures
        0 <= terminator_index(s) <= s.len(),
        forall|i: int| 0 <= i < terminator_index(s) ==> !url_terminator(#[trigger] s[i]),
        terminator_index(s) < s.len() ==> url_terminator(s[terminator_index(s)]),
    decreases s.len(),
{
    if s.len() > 0 && !url_terminator(s[0]) {
        let t = s.drop_first();
        lemma_terminator_index(t);
        assert forall|i: int| 0 <= i < terminator_index(s) implies !url_terminator(#[trigger] s[i]) by {
            if i > 0 {
                assert(s[i] == t[i - 1]);
            }
        }
        if terminator_index(s) < s.len() {
            assert(s[terminator_index(s)] == t[terminator_index(t)]);
        }
    }
}

proof fn lemma_first_occurrence(s: Seq<char>, p: Seq<char>, c: int)
    requires
        occurs_at(s, p, c),
    ensures
        exists|m: int| #[trigger] occurs_at(s, p, m) && forall|j: int| 0 <= j < m ==> !occurs_at(s, p, j),
    decreases c,
{
    if exists|j: int| 0 <= j < c && #[trigger] occurs_at(s, p, j) {
        let j = choose|j: int| 0 <= j < c && #[trigger] occurs_at(s, p, j);
        lemma_first_occurrence(s, p, j);
    } else {
        assert(occurs_at(s, p, c) && forall|j: int| 0 <= j < c ==> !occurs_at(s, p, j));
    }
}

/// The download URL found in a page body starts at the first place where
/// `https://dl.fuckingfast.co/` occurs, holds none of `"`, `'`, space, `<`,
/// `>`, CR and LF, and runs up to the first of them after that place, or to
/// the end of the text; without such a place, none is found.
pub proof fn lemma_body_download_url(text: Seq<char>)
    ensures
        body_download_url(text) is None ==> forall|m: int| !occurs_at(text, "https://dl.fuckingfast.co/"@, m),
        body_download_url(text) matches Some(u) ==> exists|m: int|
            #![trigger occurs_at(text, "https://dl.fuckingfast.co/"@, m)]
            {
                &&& occurs_at(text, "https://dl.fuckingfast.co/"@, m)
                &&& forall|j: int| 0 <= j < m ==> !occurs_at(text, "https://dl.fuckingfast.co/"@, j)
                &&& m + u.len() <= text.len()
                &&& text.subrange(m, m + u.len()) == u
                &&& has_prefix(u, "https://dl.fuckingfast.co/"@)
                &&& forall|i: int|
                    0 <= i < u.len() ==> #[trigger] u[i] != '"' && u[i] != '\'' && u[i] != ' ' && u[i] != '<'
                        && u[i] != '>' && u[i] != '\r' && u[i] != '\n'
                &&& m + u.len() == text.len() || ({
                    let c = text[m + u.len()];
                    c == '"' || c == '\'' || c == ' ' || c == '<' || c == '>' || c == '\r' || c == '\n'
                })
            },
{
    let pre = "https://dl.fuckingfast.co/"@;
    assert(pre == download_prefix());
    if contains_seq(text, download_prefix()) {
        let m = choose|m: int| occurs_at(text, download_prefix(), m) && forall|j: int| 0 <= j < m ==> !occurs_at(text, download_prefix(), j);
        let c = choose|c: int| occurs_at(text, download_prefix(), c);
        assert(exists|m: int| occurs_at(text, download_prefix(), m) && forall|j: int| 0 <= j < m ==> !occurs_at(text, download_prefix(), j)) by {
            lemma_first_occurrence(text, download_prefix(), c);
        }
        let rest = text.skip(m);
        lemma_terminator_index(rest);
        let k = terminator_index(rest);
        let u = rest.take(k);
        assert(body_download_url(text) == Some(u));
        reveal_strlit("https://dl.fuckingfast.co/");
        assert forall|i: int| 0 <= i < pre.len() implies !url_terminator(#[trigger] pre[i]) by {}
        assert forall|i: int| 0 <= i < pre.len() implies #[trigger] rest[i] == pre[i] by {
            assert(text.subrange(m, m + pre.len())[i] == text[m + i]);
        }
        if k < pre.len() {
            assert(rest[k] == pre[k]);
        }
        assert(u.take(pre.len() as int) == pre);
        assert(text.subrange(m, m + u.len()) == u);
        assert forall|i: int| 0 <= i < u.len() implies #[trigger] u[i] != '"' && u[i] != '\'' && u[i] != ' '
            && u[i] != '<' && u[i] != '>' && u[i] != '\r' && u[i] != '\n' by {
            assert(u[i] == rest[i]);
        }
        if m + u.len() < text.len() {
            assert(text[m + u.len()] == rest[k]);
        }
        assert(occurs_at(text, pre, m));
    }
}

/// The download URL written in a page body: from the first occurrence of
/// the download prefix up to the first terminator.
pub open spec fn body_download_url(text: Seq<char>) -> Option<Seq<char>> {
    if contains_seq(text, download_prefix()) {
        let m = choose|m: int| occurs_at(text, download_prefix(), m) && forall|j: int| 0 <= j < m ==> !occurs_at(text, download_prefix(), j);
        let rest = text.skip(m);
        Some(rest.take(terminator_index(rest)))
    } else {
        None
    }
}

/// Finds the download URL in a page body (see `body_download_url`).
pub fn download_url_in_body(text: &str) -> (r: Option<String>)
    ensures
        match r {
            Some(u) => body_download_url(text@) == Some(u@),
            None => body_download_url(text@).is_none(),
        },
{
    let t = chars_of(text);
    let p = chars_of("https://dl.fuckingfast.co/");
    match find_seq(t.as_slice(), p.as_slice()) {
        Some(m) => {
            let n = t.len();
            let ghost rest = t@.skip(m as int);
            proof {
                let c = choose|c: int| occurs_at(t@, download_prefix(), c) && forall|j: int| 0 <= j < c ==> !occurs_at(t@, download_prefix(), j);
                assert(occurs_at(t@, download_prefix(), m as int));
                assert(c == m as int);
                lemma_terminator_index(rest);
            }
            let mut e = m;
            assert(rest.skip(0) == rest);
            while e < n && !(t[e] == '"' || t[e] == '\'' || t[e] == ' ' || t[e] == '<' || t[e] == '>' || t[e] == '\r' || t[e] == '\n')
                invariant
                    m <= e <= n == t@.len(),
                    rest == t@.skip(m as int),
                    terminator_index(rest) == (e - m) + terminator_index(rest.skip(e - m)),
                decreases n - e,
            {
                assert(rest.skip(e - m)[0] == t@[e as int]);
                assert(rest.skip(e - m).drop_first() == rest.skip(e + 1 - m));
                e = e + 1;
            }
            proof {
                if e < n {
                    assert(rest.skip(e - m)[0] == t@[e as int]);
                } else {
                    assert(rest.skip(e - m).len() == 0);
                }
            }
            let u = copy_range(t.as_slice(), m, e);
            assert(u@ == rest.take(e - m));
            Some(string_of(u.as_slice()))
        },
        None => {
            assert(!contains_seq(t@, download_prefix()));
            None
        },
    }
}

/// The error of a direct exchange whose answer names no download URL.
pub open spec fn no_download_url_message() -> Seq<char> {
    "No redirect header or dl url in body"@
}

/// The download URL a page body names, or the no-URL error (see
/// `body_download_url`).
pub fn url_from_body(text: &str) -> (r: Result<String, String>)
    ensures
        match r {
            Ok(u) => body_download_url(text@) == Some(u@),
            Err(e) => body_download_url(text@).is_none() && e@ == no_download_url_message(),
        },
{
    match download_url_in_body(text) {
        Some(u) => Ok(u),
        None => Err(String::from_str("No redirect header or dl url in body")),
    }
}

/// What resolving a page link does once the direct exchange is over.
pub enum ResolveNext {
    /// Resolved: the download URL, and the file name the link saves to.
    Done { url: String, filename: String },
    /// The direct exchange failed: open the browser window to resolve.
    OpenWindow,
}

/// The order of resolution: the direct exchange first, and the browser
/// window only when that gave no URL; a URL comes with the link's file name
/// (see `link_filename`).
pub fn resolve_next(link: &str, direct: Result<String, String>) -> (r: ResolveNext)
    ensures
        match r {
            ResolveNext::Done { url, filename } => direct matches Ok(u) && url@ == u@
                && filename@ == link_filename(link@),
            ResolveNext::OpenWindow => direct is Err,
        },
{
    match direct {
        Ok(url) => ResolveNext::Done { url, filename: filename_from_link(link) },
        Err(_) => ResolveNext::OpenWindow,
    }
}

/// A navigation target host that carries the resolved download.
pub open spec fn resolved_host(host: Seq<char>) -> bool {
    host == "dl.fuckingfast.co"@ || (host.len() >= ".fuckingfast.co"@.len()
        && host.skip(host.len() - ".fuckingfast.co"@.len()) == ".fuckingfast.co"@)
}

/// Whether a navigation to `host` hands over the resolved download.
pub fn is_resolved_host(host: &str) -> (r: bool)
    ensures
        r == resolved_host(host@),
{
    let h = chars_of(host);
    let dl = chars_of("dl.fuckingfast.co");
    if chars_eq(h.as_slice(), dl.as_slice()) {
        return true;
    }
    let suffix = chars_of(".fuckingfast.co");
    if h.len() < suffix.len() {
        return false;
    }
    let tail = copy_range(h.as_slice(), h.len() - suffix.len(), h.len());
    assert(tail@ == h@.skip(h@.len() - suffix@.len()));
    chars_eq(tail.as_slice(), suffix.as_slice())
}

/// What `url::Url::parse` makes of `link`: the URL's path, or the text of
/// its parse error.
pub uninterp spec fn url_path(link: Seq<char>) -> Result<Seq<char>, Seq<char>>;

/// `url::Url::parse` followed by `Url::path`, the error shown as text.
/// Trusted: the outcome is `url_path` of the link; URL parsing is not
/// restated.
#[verifier::external_body]
fn parse_url_path(link: &str) -> (r: Result<String, String>)
    ensures
        match r {
            Ok(p) => url_path(link@) == Ok::<Seq<char>, Seq<char>>(p@),
            Err(e) => url_path(link@) == Err::<Seq<char>, Seq<char>>(e@),
        },
{
    url::Url::parse(link).map(|u| u.path().to_string()).map_err(|e| e.to_string())
}

/// The error for a link that is no URL.
pub open spec fn url_error_message(e: Seq<char>) -> Seq<char> {
    "URL parse: "@ + e
}

/// `s` without its leading `c`s, as `str::trim_start_matches(c)` leaves it.
pub open spec fn strip_leading(s: Seq<char>, c: char) -> Seq<char>
    decreases s.len(),
{
    if s.len() > 0 && s[0] == c {
        strip_leading(s.drop_first(), c)
    } else {
        s
    }
}

/// The label of the resolver window for a link with path `path`, opened at
/// `stamp` milliseconds.
pub open spec fn resolver_window_label(path: Seq<char>, stamp: u128) -> Seq<char> {
    "ff_resolver_"@ + label_of(strip_leading(path, '/')) + "_"@ + decimal(
        stamp as nat,
    )
}

fn url_failure(e: String) -> (r: String)
    ensures
        r@ == url_error_message(e@),
{
    let mut m = String::from_str("URL parse: ");
    m.append(e.as_str());
    m
}

/// The label of the window that resolves `link`, opened at `stamp`
/// milliseconds since the epoch; an error when `link` is no URL.
pub fn resolver_label(link: &str, stamp: u128) -> (r: Result<String, String>)
    ensures
        match url_path(link@) {
            Ok(p) => (r matches Ok(l) && l@ == resolver_window_label(p, stamp)),
            Err(e) => (r matches Err(m) && m@ == url_error_message(e)),
        },
{
    match parse_url_path(link) {
        Err(e) => Err(url_failure(e)),
        Ok(path) => {
            let chars = chars_of(path.as_str());
            let mut i: usize = 0;
            assert(chars@.skip(0) == chars@);
            while i < chars.len() && chars[i] == '/'
                invariant
                    i <= chars@.len(),
                    strip_leading(chars@, '/') == strip_leading(chars@.skip(i as int), '/'),
                decreases chars@.len() - i,
            {
                assert(chars@.skip(i as int).drop_first() == chars@.skip(i + 1));
                i = i + 1;
            }
            let rest = copy_range(chars.as_slice(), i, chars.len());
            assert(rest@ == chars@.skip(i as int));
            let cleaned = sanitize_label(string_of(rest.as_slice()).as_str());
            let mut label = String::from_str("ff_resolver_");
            label.append(cleaned.as_str());
            label.append("_");
            let digits = decimal_of(stamp);
            label.append(string_of(digits.as_slice()).as_str());
            Ok(label)
        },
    }
}

/// The label of the container window opened at `stamp` milliseconds.
pub open spec fn container_window_label(stamp: u128) -> Seq<char> {
    "ff_fc_"@ + decimal(stamp as nat)
}

/// The label of the window that opens container `url` at `stamp`
/// milliseconds since the epoch; an error when `url` is no URL.
pub fn container_label(url: &str, stamp: u128) -> (r: Result<String, String>)
    ensures
        match url_path(url@) {
            Ok(_) => (r matches Ok(l) && l@ == container_window_label(stamp)),
            Err(e) => (r matches Err(m) && m@ == url_error_message(e)),
        },
{
    match parse_url_path(url) {
        Err(e) => Err(url_failure(e)),
        Ok(_) => {
            let mut label = String::from_str("ff_fc_");
            let digits = decimal_of(stamp);
            label.append(string_of(digits.as_slice()).as_str());
            Ok(label)
        },
    }
}

/// What `str::to_lowercase` makes of `s` (full Unicode lowercasing).
pub uninterp spec fn lowercase(s: Seq<char>) -> Seq<char>;

/// `str::to_lowercase`. Trusted: the result is `lowercase` of the text;
/// the Unicode case tables are not restated.
#[verifier::external_body]
fn to_lowercase(s: &str) -> (r: String)
    ensures
        r@ == lowercase(s@),
{
    s.to_lowercase()
}

/// The host part of a link: its third `/` piece (empty when it has none),
/// lowercased.
pub open spec fn link_host(link: Seq<char>) -> Seq<char> {
    lowercase(
        match nth_piece(link, '/', 2) {
            Some(h) => h,
            None => Seq::empty(),
        },
    )
}

/// The file name of a link that already is a direct download: its last
/// non-empty `/` piece, or `download`.
pub open spec fn direct_filename(link: Seq<char>) -> Seq<char> {
    match last_nonempty_piece(link, '/') {
        Some(p) => p,
        None => "download"@,
    }
}

/// For a link on the direct download host, the file name it saves to; for
/// any other link, `None` (it has to be resolved first).
pub fn direct_download_name(link: &str) -> (r: Option<String>)
    ensures
        contains_seq(link_host(link@), "dl.fuckingfast.co"@) ==> (r matches Some(n) && n@ == direct_filename(link@)),
        !contains_seq(link_host(link@), "dl.fuckingfast.co"@) ==> r.is_none(),
{
    let l = chars_of(link);
    let piece = match nth_piece_of(l.as_slice(), '/', 2) {
        Some(h) => h,
        None => Vec::new(),
    };
    let host = to_lowercase(string_of(piece.as_slice()).as_str());
    let hc = chars_of(host.as_str());
    let dl = chars_of("dl.fuckingfast.co");
    if !contains(hc.as_slice(), dl.as_slice()) {
        return None;
    }
    match last_nonempty_piece_of(l.as_slice(), '/') {
        Some(p) => Some(string_of(p.as_slice())),
        None => Some(String::from_str("download")),
    }
}

/// The error for a page the host refused.
pub open spec fn protection_message() -> Seq<char> {
    "Cloudflare/DDoS protection"@
}

/// Judges the status of a page fetch: 403 means the page is behind
/// protection.
pub fn check_page_status(status: u16) -> (r: Result<(), String>)
    ensures
        status == 403 ==> (r matches Err(e) && e@ == protection_message()),
        status != 403 ==> (r is Ok),
{
    if status == 403 {
        Err(String::from_str("Cloudflare/DDoS protection"))
    } else {
        Ok(())
    }
}

/// How long the resolver waits before giving up, in milliseconds.
pub const RESOLVER_TIMEOUT_MS: u64 = 360000;

/// When the resolver window, kept off screen while it works on its own, is
/// brought on screen for the user to finish the check by hand: after 180
/// seconds, in milliseconds.
pub const RESOLVER_SHOW_MS: u64 = 180000;

/// How often the click script is injected again, in milliseconds.
pub const RESOLVER_INJECT_MS: u64 = 2000;

/// What the resolver does on one tick of its wait.
#[derive(PartialEq, Eq, Structural, Clone, Copy, Debug)]
pub struct ResolverTick {
    /// Bring the window on screen, sized and centred.
    pub center: bool,
    /// Inject the click script again.
    pub inject: bool,
    /// Stop: the download was cancelled.
    pub cancel: bool,
}

/// The resolver has waited too long.
pub fn resolver_timed_out(elapsed_ms: u64) -> (r: bool)
    ensures
        r == (elapsed_ms >= RESOLVER_TIMEOUT_MS),
{
    elapsed_ms >= RESOLVER_TIMEOUT_MS
}

/// The error of a resolver that waited too long.
pub fn resolver_timeout_error() -> (r: String)
    ensures
        r@ == "Timeout: could not solve Cloudflare"@,
{
    String::from_str("Timeout: could not solve Cloudflare")
}

/// Decides one tick of the resolver's wait, `elapsed_ms` into it and
/// `since_inject_ms` after the last injection.
pub fn resolver_tick(elapsed_ms: u64, since_inject_ms: u64, has_centered: bool, ctrl: CtrlState) -> (r: ResolverTick)
    ensures
        r.center == (!has_centered && elapsed_ms >= RESOLVER_SHOW_MS),
        r.inject == (since_inject_ms >= RESOLVER_INJECT_MS),
        r.cancel == (ctrl == CtrlState::Cancelled),
{
    ResolverTick {
        center: !has_centered && elapsed_ms >= RESOLVER_SHOW_MS,
        inject: since_inject_ms >= RESOLVER_INJECT_MS,
        cancel: ctrl == CtrlState::Cancelled,
    }
}

/// The outcome of the resolver's wait once its channel yields: the URL
/// that arrived, or an error when the channel closed.
pub fn resolver_received(msg: Option<String>) -> (r: Result<String, String>)
    ensures
        match msg {
            Some(u) => (r matches Ok(v) && v@ == u@),
            None => (r matches Err(e) && e@ == "resolver closed"@),
        },
{
    match msg {
        Some(u) => Ok(u),
        None => Err(String::from_str("resolver closed")),
    }
}

/// How long the container window is kept open, in milliseconds.
pub const CONTAINER_TIMEOUT_MS: u64 = 600000;

/// When the captcha may be clicked, in milliseconds.
pub const CAPTCHA_SETTLE_MS: u64 = 6000;

/// The error of a container window that stayed open too long.
pub fn container_timeout_error() -> (r: String)
    ensures
        r@ == "Timeout waiting for container parts"@,
{
    String::from_str("Timeout waiting for container parts")
}

/// What the container loop does on one round.
#[derive(PartialEq, Eq, Structural, Clone, Copy, Debug)]
pub enum ContainerStep {
    /// Give up with a timeout error.
    TimedOut,
    /// The user closed the window: no parts.
    Closed,
    /// Read the part list again, and probe the captcha when asked.
    Poll { probe_captcha: bool },
}

/// Decides one round of the container loop.
pub fn container_step(elapsed_ms: u64, window_open: bool, auto: bool, clicked: bool) -> (r: ContainerStep)
    ensures
        elapsed_ms >= CONTAINER_TIMEOUT_MS ==> r == ContainerStep::TimedOut,
        elapsed_ms < CONTAINER_TIMEOUT_MS && !window_open ==> r == ContainerStep::Closed,
        elapsed_ms < CONTAINER_TIMEOUT_MS && window_open ==> r == (ContainerStep::Poll {
            probe_captcha: auto && !clicked && elapsed_ms >= CAPTCHA_SETTLE_MS,
        }),
{
    if elapsed_ms >= CONTAINER_TIMEOUT_MS {
        ContainerStep::TimedOut
    } else if !window_open {
        ContainerStep::Closed
    } else {
        ContainerStep::Poll { probe_captcha: auto && !clicked && elapsed_ms >= CAPTCHA_SETTLE_MS }
    }
}

/// `c` with ASCII upper case made lower case.
pub open spec fn ascii_lower(c: char) -> char {
    if 'A' <= c <= 'Z' {
        ((c as u32) + 32) as char
    } else {
        c
    }
}

/// Whether the captcha mode asks for automatic clicks: `auto` in any ASCII
/// case.
pub open spec fn is_auto_mode(mode: Seq<char>) -> bool {
    mode.len() == 4 && ascii_lower(mode[0]) == 'a' && ascii_lower(mode[1]) == 'u' && ascii_lower(mode[2])
        == 't' && ascii_lower(mode[3]) == 'o'
}

fn lower_ascii(c: char) -> (r: char)
    ensures
        r == ascii_lower(c),
{
    if 'A' <= c && c <= 'Z' {
        ((c as u32) + 32) as u8 as char
    } else {
        c
    }
}

/// Reads the captcha mode (`str::eq_ignore_ascii_case("auto")`).
pub fn captcha_mode_is_auto(mode: &str) -> (r: bool)
    ensures
        r == is_auto_mode(mode@),
{
    let m = chars_of(mode);
    if m.len() != 4 {
        return false;
    }
    lower_ascii(m[0]) == 'a' && lower_ascii(m[1]) == 'u' && lower_ascii(m[2]) == 't' && lower_ascii(m[3]) == 'o'
}

/// Whether a claim to click the captcha is granted: clicking is on, no
/// click has been made, the settle time has passed, and the captcha is idle
/// and in view.
pub open spec fn may_click(auto: bool, clicked: bool, elapsed_ms: u64, idle_in_view: bool) -> bool {
    auto && !clicked && elapsed_ms >= CAPTCHA_SETTLE_MS && idle_in_view
}

/// How many of a run of click claims, each `(elapsed_ms, idle_in_view)`, a
/// watch in state (`auto`, `clicked`) grants.
pub open spec fn granted_clicks(auto: bool, clicked: bool, claims: Seq<(u64, bool)>) -> nat
    decreases claims.len(),
{
    if claims.len() == 0 {
        0
    } else {
        let g = may_click(auto, clicked, claims[0].0, claims[0].1);
        (if g { 1nat } else { 0nat }) + granted_clicks(auto, clicked || g, claims.drop_first())
    }
}

/// The state of one container window: whether the captcha is clicked
/// automatically, and whether its one click has been made.
pub struct ContainerWatch {
    auto: bool,
    clicked: bool,
}

impl ContainerWatch {
    /// The captcha is clicked automatically.
    pub closed spec fn is_auto(&self) -> bool {
        self.auto
    }

    /// The click has been made.
    pub closed spec fn has_clicked(&self) -> bool {
        self.clicked
    }

    /// A watch for a window opened in captcha mode `captcha_mode`: clicking
    /// on when the mode is `auto` (see `is_auto_mode`), no click made.
    pub fn new(captcha_mode: &str) -> (r: Self)
        ensures
            r.is_auto() == is_auto_mode(captcha_mode@),
            !r.has_clicked(),
    {
        ContainerWatch { auto: captcha_mode_is_auto(captcha_mode), clicked: false }
    }

    /// One round of the container loop (see `container_step`).
    pub fn step(&self, elapsed_ms: u64, window_open: bool) -> (r: ContainerStep)
        ensures
            elapsed_ms >= CONTAINER_TIMEOUT_MS ==> r == ContainerStep::TimedOut,
            elapsed_ms < CONTAINER_TIMEOUT_MS && !window_open ==> r == ContainerStep::Closed,
            elapsed_ms < CONTAINER_TIMEOUT_MS && window_open ==> r == (ContainerStep::Poll {
                probe_captcha: self.is_auto() && !self.has_clicked() && elapsed_ms >= CAPTCHA_SETTLE_MS,
            }),
    {
        container_step(elapsed_ms, window_open, self.auto, self.clicked)
    }

    /// A claim to click the captcha, `elapsed_ms` after the window opened;
    /// `idle_in_view` tells that the page reports the captcha idle at a
    /// point inside the window. Granted at most once (see `may_click`).
    pub fn claim_click(&mut self, elapsed_ms: u64, idle_in_view: bool) -> (r: bool)
        ensures
            r == may_click(old(self).is_auto(), old(self).has_clicked(), elapsed_ms, idle_in_view),
            final(self).is_auto() == old(self).is_auto(),
            final(self).has_clicked() == (old(self).has_clicked() || r),
    {
        let r = self.auto && !self.clicked && elapsed_ms >= CAPTCHA_SETTLE_MS && idle_in_view;
        if r {
            self.clicked = true;
        }
        r
    }
}

/// The captcha is clicked at most once per window: over any run of claims
/// a watch grants at most one, none once it has clicked, and none unless
/// clicking is on.
pub proof fn lemma_click_at_most_once(auto: bool, clicked: bool, claims: Seq<(u64, bool)>)
    ensures
        granted_clicks(auto, clicked, claims) <= 1,
        clicked ==> granted_clicks(auto, clicked, claims) == 0,
        !auto ==> granted_clicks(auto, clicked, claims) == 0,
    decreases claims.len(),
{
    if claims.len() > 0 {
        let g = may_click(auto, clicked, claims[0].0, claims[0].1);
        lemma_click_at_most_once(auto, clicked || g, claims.drop_first());
    }
}

} // verus!
