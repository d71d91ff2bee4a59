use ff_downloader::pointer::{lcg_sample, rng, seed_from_nanos};
use ff_downloader::registry::CtrlState;
use ff_downloader::resolve::{
    captcha_mode_is_auto, check_page_status, container_label, container_step, direct_download_name,
    direct_file_id, direct_response, download_url_in_body, file_go, file_page, filename_from_link,
    is_resolved_host, resolve_next, resolver_label, resolver_received, resolver_tick,
    resolver_timed_out, resolver_timeout_error, container_timeout_error, sanitize_label,
    url_from_body, ContainerStep, ContainerWatch, DirectStep, ResolveNext,
};

#[test]
fn label_keeps_only_allowed_characters() {
    assert_eq!(sanitize_label("abc/DEF-9:_x"), "abc/DEF-9:_x");
    assert_eq!(sanitize_label("a b.c#d"), "a_b_c_d");
    assert_eq!(sanitize_label("é1"), "é1");
}

#[test]
fn resolver_label_from_url_path() {
    assert_eq!(resolver_label("https://fuckingfast.co/abc123#game.rar", 42), Ok("ff_resolver_abc123_42".to_string()));
    assert_eq!(resolver_label("https://fuckingfast.co//a b", 7), Ok("ff_resolver_a_20b_7".to_string()));
    let e = resolver_label("not a url", 1).unwrap_err();
    assert!(e.starts_with("URL parse: "));
    assert_eq!(container_label("https://filecrypt.cc/Container/X.html", 1700000000123), Ok("ff_fc_1700000000123".to_string()));
    assert!(container_label("::", 1).is_err());
}

#[test]
fn filename_prefers_fragment() {
    assert_eq!(filename_from_link("https://fuckingfast.co/abc#game.part1.rar"), "game.part1.rar");
    assert_eq!(filename_from_link("https://fuckingfast.co/abc#"), "abc#");
    assert_eq!(filename_from_link("https://fuckingfast.co/abc/"), "abc");
    assert_eq!(filename_from_link("plain"), "plain");
    assert_eq!(filename_from_link("///"), "///");
}

#[test]
fn file_id_before_fragment() {
    assert_eq!(direct_file_id("https://fuckingfast.co/abc123#x/y.rar"), Ok("abc123".to_string()));
    assert_eq!(direct_file_id("https://fuckingfast.co/abc123/"), Ok("abc123".to_string()));
    assert_eq!(direct_file_id("//#x"), Err("no file id".to_string()));
    assert_eq!(file_page("abc"), "https://fuckingfast.co/f/abc");
    assert_eq!(file_go("abc"), "https://fuckingfast.co/f/abc/go");
}

#[test]
fn direct_answer_judgement() {
    assert!(matches!(direct_response(429, Some("/x")), DirectStep::Refused(e) if e == "Cloudflare/RateLimited"));
    assert!(matches!(direct_response(403, None), DirectStep::Refused(_)));
    assert!(matches!(direct_response(200, Some("/dl/abc")), DirectStep::Found(u) if u == "https://fuckingfast.co/dl/abc"));
    assert!(matches!(direct_response(200, Some("https://dl.fuckingfast.co/x")), DirectStep::Found(u) if u == "https://dl.fuckingfast.co/x"));
    assert!(matches!(direct_response(200, None), DirectStep::ReadBody));
}

#[test]
fn download_url_found_in_body() {
    let body = "<a href=\"https://dl.fuckingfast.co/dl/abc?t=1\">x</a> https://dl.fuckingfast.co/other";
    assert_eq!(download_url_in_body(body), Some("https://dl.fuckingfast.co/dl/abc?t=1".to_string()));
    assert_eq!(download_url_in_body("see https://dl.fuckingfast.co/end"), Some("https://dl.fuckingfast.co/end".to_string()));
    assert_eq!(download_url_in_body("nothing"), None);
}

#[test]
fn resolved_hosts() {
    assert!(is_resolved_host("dl.fuckingfast.co"));
    assert!(is_resolved_host("cdn3.fuckingfast.co"));
    assert!(!is_resolved_host("fuckingfast.co"));
    assert!(!is_resolved_host("evilfuckingfast.co"));
}

#[test]
fn direct_links_skip_resolution() {
    assert_eq!(direct_download_name("https://DL.FuckingFast.co/x/file.rar"), Some("file.rar".to_string()));
    assert_eq!(direct_download_name("https://dl.fuckingfast.co/"), Some("dl.fuckingfast.co".to_string()));
    assert_eq!(direct_download_name("https://fuckingfast.co/abc#f.rar"), None);
    assert_eq!(direct_download_name("dl.fuckingfast.co"), None);
}

#[test]
fn page_status() {
    assert_eq!(check_page_status(403), Err("Cloudflare/DDoS protection".to_string()));
    assert_eq!(check_page_status(200), Ok(()));
    assert_eq!(check_page_status(404), Ok(()));
}

#[test]
fn resolver_wait_decisions() {
    assert!(!resolver_timed_out(359_999));
    assert!(resolver_timed_out(360_000));
    let t = resolver_tick(7_000, 2_000, false, CtrlState::Running);
    assert!(!t.center && t.inject && !t.cancel);
    let t = resolver_tick(180_000, 0, false, CtrlState::Paused);
    assert!(t.center && !t.inject && !t.cancel);
    let t = resolver_tick(8_000, 100, true, CtrlState::Cancelled);
    assert!(!t.center && !t.inject && t.cancel);
    assert_eq!(resolver_received(Some("u".to_string())), Ok("u".to_string()));
    assert_eq!(resolver_received(None), Err("resolver closed".to_string()));
}

#[test]
fn container_loop_decisions() {
    assert_eq!(container_step(600_000, true, true, false), ContainerStep::TimedOut);
    assert_eq!(container_step(1_000, false, true, false), ContainerStep::Closed);
    assert_eq!(container_step(5_999, true, true, false), ContainerStep::Poll { probe_captcha: false });
    assert_eq!(container_step(6_000, true, true, false), ContainerStep::Poll { probe_captcha: true });
    assert_eq!(container_step(6_000, true, true, true), ContainerStep::Poll { probe_captcha: false });
    assert!(captcha_mode_is_auto("AuTo"));
    assert!(!captcha_mode_is_auto("manual"));
    assert!(!captcha_mode_is_auto("autos"));
}

#[test]
fn pointer_randomness() {
    assert!(rng() < 1_000_000_000);
    assert_eq!(seed_from_nanos(None), 12345);
    assert_eq!(seed_from_nanos(Some(7)), 7);
    let mut seed: u64 = 1;
    let s = lcg_sample(&mut seed);
    assert_eq!(seed, 1103527590);
    assert_eq!(s, (1103527590u64 >> 16) & 0x7fff);
}

#[test]
fn body_without_url_gives_error_text() {
    assert_eq!(
        url_from_body("<a href=\"https://dl.fuckingfast.co/x/y.rar\">"),
        Ok("https://dl.fuckingfast.co/x/y.rar".to_string())
    );
    assert_eq!(url_from_body("nothing"), Err("No redirect header or dl url in body".to_string()));
}

#[test]
fn direct_result_comes_before_the_window() {
    match resolve_next("https://fuckingfast.co/abc#game.rar", Ok("https://dl.fuckingfast.co/z".to_string())) {
        ResolveNext::Done { url, filename } => {
            assert_eq!(url, "https://dl.fuckingfast.co/z");
            assert_eq!(filename, "game.rar");
        }
        ResolveNext::OpenWindow => panic!("direct result ignored"),
    }
    assert!(matches!(
        resolve_next("https://fuckingfast.co/abc#game.rar", Err("HTTP 403".to_string())),
        ResolveNext::OpenWindow
    ));
}

#[test]
fn timeout_texts() {
    assert_eq!(resolver_timeout_error(), "Timeout: could not solve Cloudflare");
    assert_eq!(container_timeout_error(), "Timeout waiting for container parts");
}

#[test]
fn captcha_is_clicked_at_most_once() {
    let mut w = ContainerWatch::new("Auto");
    assert_eq!(w.step(6_000, true), ContainerStep::Poll { probe_captcha: true });
    assert!(!w.claim_click(5_999, true));
    assert!(!w.claim_click(6_000, false));
    assert!(w.claim_click(6_000, true));
    assert!(!w.claim_click(7_000, true));
    assert_eq!(w.step(7_000, true), ContainerStep::Poll { probe_captcha: false });
    assert_eq!(w.step(600_000, true), ContainerStep::TimedOut);
    assert_eq!(w.step(10_000, false), ContainerStep::Closed);
    let mut m = ContainerWatch::new("manual");
    assert_eq!(m.step(6_000, true), ContainerStep::Poll { probe_captcha: false });
    assert!(!m.claim_click(6_000, true));
}
