use ff_downloader::html::ElementData;
use ff_downloader::links::{
    arrange_links, anchor_links, collect_update_entries, dedup_links, get_links_from_page,
    link_selectors_parse, normalize_href, parse_updates_from_page, sort_key_of, sort_links,
};
use ff_downloader::natural::{name_tokens, tokens_lt, NameToken};

const WD2_SPOILER: &str = r#"<div class="su-spoiler-content su-u-clearfix su-u-trim">
<a href="https://fuckingfast.co/g1pdp1kuolm5#Watch_Dogs_2_--_fitgirl-repacks.site_--_.part01.rar" target="_blank" rel="noopener nofollow">part01.rar</a>
<a href="https://fuckingfast.co/w7m35s4qeg8h#Watch_Dogs_2_--_fitgirl-repacks.site_--_.part02.rar" target="_blank" rel="noopener nofollow">part02.rar</a>
<a href="https://fuckingfast.co/a5do7kypp5d6#fg-optional-bonus-content.bin" target="_blank" rel="noopener nofollow">bonus.bin</a>
<a href="https://fuckingfast.co/86skntewlrun#fg-selective-brazilian.bin.part1.rar" target="_blank" rel="noopener nofollow">brazilian part1</a>
</div>"#;

fn chars(s: &str) -> Vec<char> {
    s.chars().collect()
}

fn text(v: &[char]) -> String {
    v.iter().collect()
}

fn anchor(href: Option<&str>, body: &str) -> ElementData {
    ElementData { attr: href.map(|h| h.to_string()), text: body.to_string() }
}

#[test]
fn extracts_fuckingfast_links_from_spoiler_div() {
    let links = get_links_from_page(WD2_SPOILER).unwrap();
    assert_eq!(links.len(), 4);
    assert!(links[0].ends_with("part01.rar"));
    assert!(links[1].ends_with("part02.rar"));
    assert!(links[2].starts_with("https://fuckingfast.co/"));
}

#[test]
fn extracts_single_link_without_spoiler() {
    let html = r#"<div class="entry-content"><a href="https://fuckingfast.co/abc123#game.rar">Filehoster: FuckingFast</a></div>"#;
    let links = get_links_from_page(html).unwrap();
    assert_eq!(links.len(), 1);
    assert_eq!(links[0], "https://fuckingfast.co/abc123#game.rar");
}

#[test]
fn errors_when_no_fuckingfast_links() {
    let html = "<html><body><p>nothing here</p></body></html>";
    assert!(get_links_from_page(html).is_err());
}

#[test]
fn extracts_updates_from_green_div() {
    let html = r#"<h3>Game Updates &#8211; Direct Links only</h3>
<div style="background-color: #9aff612e; border: 1px solid #159311; border-radius: 10px; padding:20px; margin-bottom: 20px">
<ol>
<li><a href="https://filecrypt.cc/Container/DB6F829416.html">TEKKEN.8.Update.v2.08.00.incl.DLC-RUNE (3 parts)</a> (Source: scene)<br />
or<br />
<a href="https://filecrypt.cc/Container/68C5B68CB1.html">TEKKEN_8_Update_from_v2.06.01_to_v2.08.00-ElAmigos (2 parts)</a></p>
<li><a href="https://filecrypt.cc/Container/6185D28BB9.html">TEKKEN.8.Update.v2.09.00.incl.DLC-RUNE (2 parts)</a>
</ol>
</div>"#;
    let entries = parse_updates_from_page(html);
    assert_eq!(entries.len(), 3);
    assert_eq!(entries[0].name, "TEKKEN.8.Update.v2.08.00.incl.DLC-RUNE (3 parts)");
    assert_eq!(entries[0].url, "https://filecrypt.cc/Container/DB6F829416.html");
    assert!(entries.iter().all(|e| e.url.contains("filecrypt.cc/Container/")));
}

#[test]
fn updates_ignores_non_green_links() {
    let html = r#"<div class="entry-content">
<a href="https://filecrypt.cc/Container/DB6F829416.html">bad</a>
<a href="https://fuckingfast.co/abc#x.rar">download</a>
</div>"#;
    let entries = parse_updates_from_page(html);
    assert!(entries.is_empty());
}

#[test]
fn no_link_error_message() {
    let html = "<p><a href=\"https://example.com/x\">x</a></p>";
    assert_eq!(get_links_from_page(html), Err("no fuckingfast link found".to_string()));
}

#[test]
fn page_links_are_sorted_by_fragment_and_deduplicated() {
    let html = r#"<p>
<a href="  https://fuckingfast.co/b#b.rar ">b</a>
<a href="//fuckingfast.co/a#a.rar">a</a>
<a href="https://fuckingfast.co/b#b.rar">b again</a>
<a href="ftp://fuckingfast.co/c#c.rar">ftp</a>
<a>no href fuckingfast.co</a>
</p>"#;
    let links = get_links_from_page(html).unwrap();
    assert_eq!(
        links,
        vec!["https://fuckingfast.co/a#a.rar".to_string(), "https://fuckingfast.co/b#b.rar".to_string()]
    );
}

#[test]
fn spoiler_links_win_over_page_links() {
    let html = r#"<a href="https://fuckingfast.co/z#z.rar">outside</a>
<div class="su-spoiler-content"><a href="https://fuckingfast.co/y#y.rar">inside</a></div>"#;
    let links = get_links_from_page(html).unwrap();
    assert_eq!(links, vec!["https://fuckingfast.co/y#y.rar".to_string()]);
}

#[test]
fn href_normalization() {
    assert_eq!(normalize_href(&chars(" //host/x ")).map(|v| text(&v)), Some("https://host/x".to_string()));
    assert_eq!(normalize_href(&chars("\thttp://host/x\n")).map(|v| text(&v)), Some("http://host/x".to_string()));
    assert_eq!(normalize_href(&chars("/relative")), None);
    assert_eq!(normalize_href(&chars("mailto:x")), None);
}

#[test]
fn sort_key_takes_first_fragment_piece() {
    assert_eq!(sort_key_of(&chars("https://h/a#name#more")), name_tokens(&chars("name")));
    assert_eq!(sort_key_of(&chars("https://h/a#")), vec![]);
    assert_eq!(sort_key_of(&chars("https://h/a")), name_tokens(&chars("https://h/a")));
    assert_eq!(
        sort_key_of(&chars("https://h/a#p10.r")),
        vec![
            NameToken::Text('p'),
            NameToken::Number(vec!['1', '0']),
            NameToken::Text('.'),
            NameToken::Text('r')
        ]
    );
}

#[test]
fn digit_runs_compare_by_value() {
    let k9 = name_tokens(&chars("g.part9.rar"));
    let k10 = name_tokens(&chars("g.part10.rar"));
    assert!(tokens_lt(&k9, &k10));
    assert!(!tokens_lt(&k10, &k9));
    assert!(!tokens_lt(&k9, &k9));
    assert!(tokens_lt(&name_tokens(&chars("a1")), &name_tokens(&chars("a01"))));
    assert!(tokens_lt(&name_tokens(&chars("a2")), &name_tokens(&chars("a10"))));
    assert!(tokens_lt(&name_tokens(&chars("a.b")), &name_tokens(&chars("a1"))));
    assert!(tokens_lt(&name_tokens(&chars("a9")), &name_tokens(&chars("ab"))));
}

#[test]
fn sorting_is_stable_for_equal_keys() {
    let items = vec![chars("x#k"), chars("a#b"), chars("y#k"), chars("z#a")];
    let sorted: Vec<String> = sort_links(&items).iter().map(|v| text(v)).collect();
    assert_eq!(sorted, vec!["z#a", "a#b", "x#k", "y#k"]);
}

#[test]
fn sorting_is_natural() {
    let items = vec![chars("b#g.part10.rar"), chars("a#g.part9.rar"), chars("c#g.part1.rar")];
    let sorted: Vec<String> = sort_links(&items).iter().map(|v| text(v)).collect();
    assert_eq!(sorted, vec!["c#g.part1.rar", "a#g.part9.rar", "b#g.part10.rar"]);
}

#[test]
fn page_links_are_sorted_naturally() {
    let html = "<a href='https://fuckingfast.co/b#g.part10.rar'>x</a><a href='https://fuckingfast.co/a#g.part9.rar'>y</a>";
    assert_eq!(
        get_links_from_page(html),
        Ok(vec![
            "https://fuckingfast.co/a#g.part9.rar".to_string(),
            "https://fuckingfast.co/b#g.part10.rar".to_string()
        ])
    );
}

#[test]
fn dedup_drops_every_later_copy() {
    let items = vec![chars("1#k"), chars("2#k"), chars("1#k")];
    let sorted = sort_links(&items);
    let unique: Vec<String> = dedup_links(sorted).iter().map(|v| text(v)).collect();
    assert_eq!(unique, vec!["1#k", "2#k"]);
    let again: Vec<String> = dedup_links(vec![chars("a"), chars("a"), chars("b"), chars("b"), chars("a")])
        .iter()
        .map(|v| text(v))
        .collect();
    assert_eq!(again, vec!["a", "b"]);
}

#[test]
fn page_links_are_fully_deduplicated() {
    let html = "<a href='https://fuckingfast.co/a#f.rar'>1</a><a href='https://fuckingfast.co/b#f.rar'>2</a><a href='https://fuckingfast.co/a#f.rar'>3</a>";
    assert_eq!(
        get_links_from_page(html),
        Ok(vec!["https://fuckingfast.co/a#f.rar".to_string(), "https://fuckingfast.co/b#f.rar".to_string()])
    );
}

#[test]
fn arrange_prefers_spoiler_list() {
    let r = arrange_links(vec![chars("https://h/1#b")], vec![chars("https://h/2#c"), chars("https://h/3#a")]);
    assert_eq!(r, vec!["https://h/3#a".to_string(), "https://h/2#c".to_string()]);
    let r = arrange_links(vec![chars("https://h/1#b"), chars("https://h/0#a")], vec![]);
    assert_eq!(r, vec!["https://h/0#a".to_string(), "https://h/1#b".to_string()]);
}

#[test]
fn anchors_without_usable_href_are_skipped() {
    let elems = vec![anchor(None, "x"), anchor(Some("https://h/a"), "a"), anchor(Some("javascript:void(0)"), "j")];
    let links: Vec<String> = anchor_links(&elems).iter().map(|v| text(v)).collect();
    assert_eq!(links, vec!["https://h/a"]);
}

#[test]
fn update_entries_skip_empty_and_repeated_links() {
    let groups = vec![
        vec![anchor(Some(" https://f/C/1 "), " One "), anchor(Some("https://f/C/1"), "Dup")],
        vec![anchor(Some("https://f/C/2"), "   "), anchor(None, "none"), anchor(Some(""), "empty"), anchor(Some("https://f/C/3"), "Three")],
    ];
    let entries = collect_update_entries(&groups);
    let got: Vec<(String, String)> = entries.into_iter().map(|e| (e.name, e.url)).collect();
    assert_eq!(
        got,
        vec![
            ("One".to_string(), "https://f/C/1".to_string()),
            ("Three".to_string(), "https://f/C/3".to_string())
        ]
    );
}

#[test]
fn link_selectors_are_valid() {
    assert!(link_selectors_parse());
    assert_eq!(
        get_links_from_page("<a href='https://fuckingfast.co/x#y.rar'>no</a>").map(|v| v.len()),
        Ok(1)
    );
    assert_eq!(
        get_links_from_page("<a href='fuckingfast.co/x'>relative</a>"),
        Err("no fuckingfast link found".to_string())
    );
}

#[test]
fn update_entries_keep_document_order() {
    let groups = vec![
        vec![anchor(Some("https://f/C/2"), ""), anchor(Some("https://f/C/3"), "Three")],
        vec![anchor(Some("https://f/C/2"), "Two"), anchor(Some("https://f/C/3"), "Again")],
    ];
    let got: Vec<(String, String)> =
        collect_update_entries(&groups).into_iter().map(|e| (e.name, e.url)).collect();
    assert_eq!(
        got,
        vec![
            ("Three".to_string(), "https://f/C/3".to_string()),
            ("Two".to_string(), "https://f/C/2".to_string())
        ]
    );
}
