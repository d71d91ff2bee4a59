use ff_downloader::registry::{
    cancelled_error, check_ctrl, CtrlGate, CtrlState, Downloads, LinkTable, ProgressMark,
};

#[test]
fn ctrl_reads_back_last_write() {
    let mut t: LinkTable<CtrlState> = LinkTable::new();
    assert_eq!(check_ctrl(&t, "a"), CtrlState::Running);
    t.insert("a", CtrlState::Paused);
    t.insert("b", CtrlState::Cancelled);
    assert_eq!(check_ctrl(&t, "a"), CtrlState::Paused);
    t.insert("a", CtrlState::Running);
    assert_eq!(check_ctrl(&t, "a"), CtrlState::Running);
    assert_eq!(check_ctrl(&t, "b"), CtrlState::Cancelled);
    assert_eq!(t.remove("b"), Some(CtrlState::Cancelled));
    assert_eq!(check_ctrl(&t, "b"), CtrlState::Running);
    assert_eq!(t.remove("b"), None);
}

#[test]
fn started_download_reports_resolving() {
    let mut d = Downloads::new();
    d.start("L");
    let i = d.info("L");
    assert_eq!(i.progress, ProgressMark::Zero);
    assert_eq!(i.status.as_deref(), Some("Resolving link (Cloudflare)..."));
    assert_eq!(d.ctrl_state("L"), CtrlState::Running);
    d.set_status("L", Some("Preparing download...".to_string()));
    assert_eq!(d.info("L").status.as_deref(), Some("Preparing download..."));
    d.set_status("L", None);
    assert_eq!(d.info("L").status, None);
}

#[test]
fn pause_resume_cancel() {
    let mut d = Downloads::new();
    d.start("L");
    d.set_save_path("L", "/tmp/x.rar".to_string());
    d.pause("L");
    assert_eq!(d.ctrl_state("L"), CtrlState::Paused);
    d.mark_paused("L");
    assert!(d.info("L").paused);
    d.resume("L");
    assert_eq!(d.ctrl_state("L"), CtrlState::Running);
    assert!(!d.info("L").paused);
    assert_eq!(d.cancel("L"), Some("/tmp/x.rar".to_string()));
    assert_eq!(d.ctrl_state("L"), CtrlState::Cancelled);
    assert_eq!(d.info("L").error.as_deref(), Some("Cancelled"));
    assert_eq!(d.cancel("unknown"), None);
    assert_eq!(d.info("unknown").error, None);
    assert_eq!(d.ctrl_state("unknown"), CtrlState::Cancelled);
}

#[test]
fn progress_counts_and_completion() {
    let mut d = Downloads::new();
    d.start("L");
    d.set_total("L", 1000);
    assert!(d.add_downloaded("L", 250));
    assert!(d.add_downloaded("L", 250));
    let i = d.info("L");
    assert_eq!(i.downloaded, 500);
    assert_eq!(i.progress, ProgressMark::Ratio { done: 500, total: 1000 });
    assert!(!d.add_downloaded("L", u64::MAX));
    assert_eq!(d.info("L").downloaded, 500);
    d.record_downloaded("L", 10, 0);
    assert_eq!(d.info("L").downloaded, 10);
    assert_eq!(d.info("L").progress, ProgressMark::Ratio { done: 500, total: 1000 });
    d.mark_complete("L");
    assert_eq!(d.info("L").progress, ProgressMark::Full);
    d.set_error("L", "HTTP 404 Not Found".to_string());
    assert_eq!(d.info("L").error.as_deref(), Some("HTTP 404 Not Found"));
}

#[test]
fn cleared_download_reads_default() {
    let mut d = Downloads::new();
    d.start("L");
    d.start("M");
    d.pause("L");
    d.clear("L");
    let i = d.info("L");
    assert_eq!(i.progress, ProgressMark::Zero);
    assert_eq!(i.status, None);
    assert_eq!(d.ctrl_state("L"), CtrlState::Running);
    assert!(d.info("M").status.is_some());
}

#[test]
fn checkpoint_follows_control_state() {
    let mut d = Downloads::new();
    d.start("a");
    assert_eq!(d.checkpoint("a"), CtrlGate::Proceed);
    assert!(!d.info("a").paused);
    d.pause("a");
    assert_eq!(d.checkpoint("a"), CtrlGate::Wait);
    assert!(d.info("a").paused);
    d.resume("a");
    assert_eq!(d.checkpoint("a"), CtrlGate::Proceed);
    assert!(!d.info("a").paused);
    d.cancel("a");
    assert_eq!(d.checkpoint("a"), CtrlGate::Stop);
    assert_eq!(d.checkpoint("unknown"), CtrlGate::Proceed);
}

#[test]
fn cancelled_error_text() {
    assert_eq!(cancelled_error(), "Cancelled");
}
