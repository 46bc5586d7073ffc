//! Batch accumulation: completion, timeout, mismatch, rendering, and the
//! loop directives.

use cp_guard::data::{BatchDesc, BatchDumpRes};
use cp_guard::notifier::{title_for, NotifyProxyCtx, ProxyEvent, NOTIFY_DEADLINE_SECS};

fn outcome(id: &str, size: u64, code: Option<&str>, ctx: Option<&str>) -> BatchDumpRes {
    BatchDumpRes {
        batch: BatchDesc {
            id: id.to_owned(),
            size,
        },
        group: "test group".to_owned(),
        code: code.map(str::to_owned),
        ctx: ctx.map(str::to_owned),
    }
}

#[test]
fn test_handle_new_batch_one_prob() {
    let mut ctx = NotifyProxyCtx::default();
    ctx.handle_new_batch(Some(BatchDumpRes {
        batch: BatchDesc {
            id: "fake-batch-id".to_owned(),
            size: 1,
        },
        group: "test group".to_owned(),
        code: Some("test01/a".to_owned()),
        ctx: Some("/tmp/test01".to_owned()),
    }));
    assert!(ctx.batch.is_none());
}

#[test]
fn test_handle_new_batch_two_prob() {
    let mut ctx = NotifyProxyCtx::default();
    let group = "test group 2".to_owned();
    let id = "fake-batch-id".to_owned();
    ctx.handle_new_batch(Some(BatchDumpRes {
        batch: BatchDesc {
            id: id.clone(),
            size: 2,
        },
        group: group.clone(),
        code: None,
        ctx: Some("/tmp/test02".to_owned()),
    }));
    assert!(ctx.batch.is_some());
    ctx.handle_new_batch(Some(BatchDumpRes {
        batch: BatchDesc { id, size: 2 },
        group,
        code: Some("test02/b".to_owned()),
        ctx: Some("/tmp/test02".to_owned()),
    }));
    assert!(ctx.batch.is_none());
}

#[test]
fn test_handle_new_batch_two_prob_timeout() {
    let mut ctx = NotifyProxyCtx::default();
    let group = "test group 2".to_owned();
    let id = "fake-batch-id".to_owned();
    ctx.handle_new_batch(Some(BatchDumpRes {
        batch: BatchDesc { id, size: 2 },
        group,
        code: Some("test02/b".to_owned()),
        ctx: Some("/tmp/test02".to_owned()),
    }));
    assert!(ctx.batch.is_some());
    ctx.handle_new_batch(None);
    assert!(ctx.batch.is_none());
}

#[test]
fn test_handle_new_batch_id_unexpect() {
    let mut ctx = NotifyProxyCtx::default();
    let group = "test group 2".to_owned();
    let id = "fake-batch-id".to_owned();
    ctx.handle_new_batch(Some(BatchDumpRes {
        batch: BatchDesc { id, size: 2 },
        group: group.clone(),
        code: Some("test02/a".to_owned()),
        ctx: Some("/tmp/test02".to_owned()),
    }));
    assert!(ctx.batch.is_some());
    let id = "unexpect-fake-batch-id".to_owned();
    ctx.handle_new_batch(Some(BatchDumpRes {
        batch: BatchDesc { id, size: 2 },
        group,
        code: Some("test02/b".to_owned()),
        ctx: Some("/tmp/test02".to_owned()),
    }));
    assert!(ctx.batch.is_none());
}

#[test]
fn test_outcome_construction() {
    let batch = BatchDesc {
        id: "X".to_owned(),
        size: 2,
    };
    let ok = BatchDumpRes::new(
        batch.clone(),
        "g".to_owned(),
        Some(("2051/c".to_owned(), "/top/2051".to_owned())),
    );
    assert_eq!(ok.code.as_deref(), Some("2051/c"));
    assert_eq!(ok.ctx.as_deref(), Some("/top/2051"));
    let failed = BatchDumpRes::new(batch, "g".to_owned(), None);
    assert!(failed.code.is_none());
    assert!(failed.ctx.is_none());
}

#[test]
fn test_single_success_done_summary() {
    let mut ctx = NotifyProxyCtx::default();
    let req = ctx
        .handle_new_batch(Some(outcome("X", 1, Some("2051/c"), Some("/tmp/x"))))
        .expect("a complete batch must notify");
    assert_eq!(req.hint, "DONE");
    assert!(req.body.starts_with("1/0/0 ok: "));
    assert!(req.body.contains("2051/c"));
    assert_eq!(req.body, "1/0/0 ok: 2051/c,");
    assert!(ctx.batch.is_none());
}

#[test]
fn test_complete_batch_counts_and_sorted_codes() {
    let mut ctx = NotifyProxyCtx::default();
    assert!(ctx
        .handle_new_batch(Some(outcome("X", 3, Some("9/b"), None)))
        .is_none());
    assert!(ctx
        .handle_new_batch(Some(outcome("X", 3, Some("9/a"), None)))
        .is_none());
    let req = ctx
        .handle_new_batch(Some(outcome("X", 3, Some("9/c"), None)))
        .expect("third outcome completes the batch");
    assert_eq!(req.hint, "DONE");
    // codes are listed lexicographically sorted, each followed by a comma
    assert_eq!(req.body, "3/0/0 ok: 9/a,9/b,9/c,");
}

#[test]
fn test_duplicate_codes_are_listed_once() {
    let mut ctx = NotifyProxyCtx::default();
    assert!(ctx
        .handle_new_batch(Some(outcome("X", 2, Some("9/a"), None)))
        .is_none());
    let req = ctx
        .handle_new_batch(Some(outcome("X", 2, Some("9/a"), None)))
        .expect("second outcome completes the batch");
    assert_eq!(req.body, "2/0/0 ok: 9/a,");
}

#[test]
fn test_timeout_summary_partial_counts() {
    let mut ctx = NotifyProxyCtx::default();
    assert!(ctx
        .handle_new_batch(Some(outcome("X", 3, Some("9/a"), None)))
        .is_none());
    assert!(ctx
        .handle_new_batch(Some(outcome("X", 3, None, None)))
        .is_none());
    let req = ctx
        .handle_new_batch(None)
        .expect("the deadline must notify");
    assert_eq!(req.hint, "TIMEOUT");
    assert_eq!(req.body, "1/1/1 ok: 9/a,");
    assert!(ctx.batch.is_none());
    assert_eq!(ctx.ok_cnt, 0);
    assert_eq!(ctx.err_cnt, 0);
    assert!(ctx.code_set.is_empty());
}

#[test]
fn test_mismatch_summary_reports_abandoned_batch() {
    let mut ctx = NotifyProxyCtx::default();
    assert!(ctx
        .handle_new_batch(Some(outcome("X", 2, Some("9/a"), None)))
        .is_none());
    let req = ctx
        .handle_new_batch(Some(outcome("Y", 2, Some("9/b"), None)))
        .expect("a mismatched id must notify");
    assert_eq!(req.hint, "BATCH MISMATCH");
    // the summary shows the abandoned batch, not the triggering event
    assert_eq!(req.body, "1/0/1 ok: 9/a,");
    // and the triggering event is discarded with it
    assert!(ctx.batch.is_none());
    assert_eq!(ctx.ok_cnt, 0);
    assert!(ctx.code_set.is_empty());
}

#[test]
fn test_marker_derived_from_context_path() {
    let mut ctx = NotifyProxyCtx::default();
    let req = ctx
        .handle_new_batch(Some(outcome("X", 1, Some("2051/c"), Some("/top/2051"))))
        .expect("a complete batch must notify");
    let marker = req.marker.expect("a context path derives a marker");
    assert_eq!(marker.path, "/top/current-context");
    assert_eq!(marker.content, "2051");
}

#[test]
fn test_no_context_path_no_marker() {
    let mut ctx = NotifyProxyCtx::default();
    let req = ctx
        .handle_new_batch(Some(outcome("X", 1, Some("2051/c"), None)))
        .expect("a complete batch must notify");
    assert!(req.marker.is_none());
}

#[test]
fn test_title_decorations() {
    assert_eq!(title_for("DONE", "g", true, true), "DONE: g");
    assert_eq!(title_for("DONE", "g", false, true), "DONE: ERRCTX: g");
    assert_eq!(title_for("DONE", "g", true, false), "DONE: WERRCTX: g");
}

#[test]
fn test_channel_close_is_not_a_timeout() {
    let mut ctx = NotifyProxyCtx::default();
    let step = ctx.handle_event(ProxyEvent::Outcome(outcome(
        "X",
        2,
        Some("9/a"),
        Some("/tmp/x"),
    )));
    assert!(!step.terminate);
    assert!(step.arm_deadline);
    assert!(step.notice.is_none());
    // the channel closes before the second outcome: the loop stops without
    // a summary for the partial batch
    let step = ctx.handle_event(ProxyEvent::ChannelClosed);
    assert!(step.terminate);
    assert!(step.notice.is_none());
    assert!(ctx.batch.is_none());
}

#[test]
fn test_deadline_armed_only_at_first_event() {
    let mut ctx = NotifyProxyCtx::default();
    let step = ctx.handle_event(ProxyEvent::Outcome(outcome("X", 3, Some("9/a"), None)));
    assert!(step.arm_deadline);
    let step = ctx.handle_event(ProxyEvent::Outcome(outcome("X", 3, Some("9/b"), None)));
    assert!(!step.arm_deadline);
    let step = ctx.handle_event(ProxyEvent::DeadlineExpired);
    assert!(!step.terminate);
    assert_eq!(step.notice.expect("deadline notifies").hint, "TIMEOUT");
    assert_eq!(NOTIFY_DEADLINE_SECS, 5);
}

#[test]
fn test_zero_size_batch_never_completes_by_count() {
    let mut ctx = NotifyProxyCtx::default();
    assert!(ctx
        .handle_new_batch(Some(outcome("X", 0, Some("9/a"), None)))
        .is_none());
    assert!(ctx.batch.is_some());
    let req = ctx
        .handle_new_batch(None)
        .expect("only the deadline ends a zero-size batch");
    assert_eq!(req.hint, "TIMEOUT");
    assert_eq!(req.body, "1/0/0 ok: 9/a,");
}

#[test]
fn test_idle_timeout_renders_unknown_group() {
    let ctx = NotifyProxyCtx::default();
    let req = ctx.notify("TIMEOUT");
    assert_eq!(req.group, "unknown");
    assert_eq!(req.body, "0/0/0 ok: ");
    assert!(req.marker.is_none());
}
