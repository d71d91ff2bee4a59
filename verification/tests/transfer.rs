use ff_downloader::registry::CtrlState;
use ff_downloader::transfer::{
    choose_mode, first_part_error, idle_error, no_range_error, part_outcome, range_header,
    save_path, should_remove_partial, split_ranges, status_error, total_from_probe, AttemptEnd,
    ChunkStep, DownloadMode, PartDownload, PartFailure, ResponseStep, SingleDownload, MAX_PARTS,
    MAX_RETRIES, SYNC_INTERVAL,
};

#[test]
fn probe_reads_size_after_last_slash() {
    assert_eq!(total_from_probe(206, Some("bytes 0-0/12345")), 12345);
    assert_eq!(total_from_probe(206, Some("bytes 0-0/+77")), 77);
    assert_eq!(total_from_probe(200, Some("bytes 0-0/12345")), 0);
    assert_eq!(total_from_probe(206, None), 0);
    assert_eq!(total_from_probe(206, Some("bytes 0-0/*")), 0);
    assert_eq!(total_from_probe(206, Some("bytes 0-0/")), 0);
    assert_eq!(total_from_probe(206, Some("bytes 0-0/-5")), 0);
    assert_eq!(total_from_probe(206, Some("18446744073709551615")), u64::MAX);
    assert_eq!(total_from_probe(206, Some("x/18446744073709551616")), 0);
}

#[test]
fn mode_is_clamped() {
    assert_eq!(choose_mode(0, 4), DownloadMode::Single);
    assert_eq!(choose_mode(100, 1), DownloadMode::Single);
    assert_eq!(choose_mode(100, 0), DownloadMode::Single);
    assert_eq!(choose_mode(100, 4), DownloadMode::Parallel { parts: 4 });
    assert_eq!(choose_mode(100, 40), DownloadMode::Parallel { parts: 8 });
    assert_eq!(choose_mode(100, 12), DownloadMode::Parallel { parts: 8 });
    assert_eq!(choose_mode(100, 8), DownloadMode::Parallel { parts: 8 });
}

#[test]
fn ranges_tile_the_file() {
    assert_eq!(split_ranges(10, 3), vec![(0, 2), (3, 5), (6, 9)]);
    assert_eq!(split_ranges(3, 8), vec![(0, 0), (1, 1), (2, 2)]);
    assert_eq!(split_ranges(1, 1), vec![(0, 0)]);
    let r = split_ranges(1_000_003, 8);
    assert_eq!(r.len(), 8);
    assert_eq!(r[0].0, 0);
    assert_eq!(r[7].1, 1_000_002);
    for i in 0..7 {
        assert_eq!(r[i + 1].0, r[i].1 + 1);
    }
}

#[test]
fn range_header_text() {
    assert_eq!(range_header(0, 0), "bytes=0-0");
    assert_eq!(range_header(1048576, 2097151), "bytes=1048576-2097151");
    assert_eq!(range_header(u64::MAX, u64::MAX), "bytes=18446744073709551615-18446744073709551615");
}

#[test]
fn part_resumes_from_written_offset() {
    let mut p = PartDownload::new(100, 199);
    assert_eq!(p.next_from(), Some(100));
    assert_eq!(p.on_response(206, 100), ResponseStep::Stream);
    assert_eq!(p.on_chunk(40), ChunkStep::Continue);
    match p.end_attempt(Some("Stream: reset".to_string())) {
        AttemptEnd::Retry { delay_ms } => assert_eq!(delay_ms, 500),
        _ => panic!("expected a retry"),
    }
    assert_eq!(p.next_from(), Some(140));
    assert_eq!(p.on_response(206, 140), ResponseStep::Stream);
    assert_eq!(p.on_chunk(60), ChunkStep::Sync { delta: 100 });
    assert!(matches!(p.end_attempt(None), AttemptEnd::Done));
    assert_eq!(p.next_from(), None);
}

#[test]
fn part_syncs_every_interval() {
    let mut p = PartDownload::new(0, 10 * SYNC_INTERVAL);
    assert_eq!(p.on_chunk(SYNC_INTERVAL - 1), ChunkStep::Continue);
    assert_eq!(p.on_chunk(2), ChunkStep::Sync { delta: SYNC_INTERVAL + 1 });
    assert_eq!(p.on_chunk(1), ChunkStep::Continue);
    assert_eq!(p.last_sync, SYNC_INTERVAL + 1);
}

#[test]
fn part_gives_up_after_retries() {
    let mut p = PartDownload::new(0, 9);
    for attempt in 0..MAX_RETRIES {
        assert_eq!(p.on_response(503, 0), ResponseStep::Retry { delay_ms: 500 * (attempt as u64 + 1) });
    }
    assert_eq!(p.on_response(503, 0), ResponseStep::Fail(PartFailure::HttpStatus));
    let mut q = PartDownload::new(10, 19);
    for _ in 0..MAX_RETRIES {
        match q.end_attempt(None) {
            AttemptEnd::Retry { .. } => {}
            _ => panic!("expected a retry"),
        }
    }
    match q.end_attempt(None) {
        AttemptEnd::Fail(e) => assert_eq!(e, "Missing data (connection closed)"),
        _ => panic!("expected a failure"),
    }
}

#[test]
fn resumed_part_needs_range_support() {
    let mut p = PartDownload::new(0, 9);
    assert_eq!(p.on_response(200, 0), ResponseStep::Stream);
    assert_eq!(p.on_response(200, 5), ResponseStep::Retry { delay_ms: 500 });
    for _ in 1..MAX_RETRIES {
        let _ = p.on_response(200, 5);
    }
    assert_eq!(p.on_response(200, 5), ResponseStep::Fail(PartFailure::NoRangeSupport));
}

#[test]
fn chunk_overflow_is_reported() {
    let mut p = PartDownload::new(10, 20);
    assert_eq!(p.on_chunk(u64::MAX), ChunkStep::Overflow);
    assert_eq!(p.written, 0);
    let mut s = SingleDownload::new(0);
    assert_eq!(s.on_chunk(5), ChunkStep::Continue);
    assert_eq!(s.on_chunk(u64::MAX), ChunkStep::Overflow);
}

#[test]
fn single_stream_syncs_at_total() {
    let mut s = SingleDownload::new(10);
    assert_eq!(s.on_chunk(4), ChunkStep::Continue);
    assert_eq!(s.on_chunk(6), ChunkStep::Sync { delta: 10 });
    assert_eq!(s.downloaded, 10);
}

#[test]
fn first_error_in_part_order() {
    assert_eq!(first_part_error(vec![None, Some("b".to_string()), Some("c".to_string())]), Some("b".to_string()));
    assert_eq!(first_part_error(vec![None, None]), None);
}

#[test]
fn partial_file_removed_only_on_cancel() {
    assert!(should_remove_partial(CtrlState::Cancelled, "HTTP 500"));
    assert!(should_remove_partial(CtrlState::Running, "Cancelled"));
    assert!(!should_remove_partial(CtrlState::Paused, "HTTP 500"));
}

#[test]
fn parts_are_capped_at_eight() {
    assert_eq!(MAX_PARTS, 8);
    assert_eq!(choose_mode(1_000_000, 12), DownloadMode::Parallel { parts: 8 });
    assert_eq!(split_ranges(1_000_000, 8).len(), 8);
}

#[test]
fn error_texts() {
    assert_eq!(status_error("404 Not Found"), "HTTP 404 Not Found");
    assert_eq!(status_error(""), "HTTP ");
    assert_eq!(idle_error(), "Idle timeout: no data received");
    assert_eq!(no_range_error(), "Server does not support range requests");
}

#[test]
fn part_outcomes() {
    assert_eq!(part_outcome(Some(Ok(()))), None);
    assert_eq!(part_outcome(Some(Err("Write: disk full".to_string()))), Some("Write: disk full".to_string()));
    assert_eq!(part_outcome(None), Some("part task panicked".to_string()));
    let outcomes = vec![part_outcome(Some(Ok(()))), part_outcome(None), part_outcome(Some(Err("x".into())))];
    assert_eq!(first_part_error(outcomes), Some("part task panicked".to_string()));
}

#[test]
fn save_path_joins_folder_and_name() {
    let sep = std::path::MAIN_SEPARATOR;
    assert_eq!(save_path("/downloads", "game.rar"), format!("/downloads{}game.rar", sep));
    assert_eq!(save_path("downloads/", "game.rar"), "downloads/game.rar");
    assert_eq!(save_path("", "game.rar"), "game.rar");
    let joined = save_path("/downloads", "game.rar");
    assert_ne!(joined, "/downloadsgame.rar");
    assert_eq!(joined.len(), "/downloads/game.rar".len());
}
