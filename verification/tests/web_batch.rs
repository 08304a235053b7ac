use cosense_core::web_batch::{plan_batch, JobHead, Reply};

fn render(gen: u64, src: u64, keys: &[&str], cols: u16, auth: bool) -> JobHead {
    JobHead::Render {
        gen,
        src_epoch: src,
        keys: keys.iter().map(|k| k.to_string()).collect(),
        max_cols: cols,
        has_auth: auth,
    }
}

#[test]
fn jobs_of_a_left_page_are_dropped_without_a_reply() {
    let p = plan_batch(&[render(1, 5, &["a"], 80, true), JobHead::Rescale { gen: 1 }], 2, 5);
    assert!(p.replies.is_empty());
    assert!(p.merged.is_none());
    assert!(!p.stop);
}

#[test]
fn a_render_whose_source_moved_is_answered_stale_per_request() {
    let p = plan_batch(&[JobHead::Rescale { gen: 2 }, render(2, 4, &["a", "b"], 80, false)], 2, 5);
    assert_eq!(
        p.replies,
        vec![Reply::Rescale { job: 0 }, Reply::Stale { job: 1, req: 0 }, Reply::Stale { job: 1, req: 1 }]
    );
    assert!(p.merged.is_none());
}

#[test]
fn fresh_renders_merge_into_one_batch_first_key_kept() {
    let p = plan_batch(
        &[render(2, 5, &["a", "b"], 80, false), JobHead::Stop, render(2, 5, &["b", "c"], 100, true)],
        2,
        5,
    );
    assert!(p.stop);
    let m = p.merged.unwrap();
    assert_eq!(m.reqs, vec![(0, 0), (0, 1), (2, 1)]);
    assert_eq!(m.max_cols, 100);
    assert_eq!((m.gen, m.src_epoch), (2, 5));
    assert_eq!(m.auth_from, Some(2));
}

#[test]
fn the_first_credential_in_queue_order_wins() {
    let p = plan_batch(&[render(3, 1, &["a"], 80, true), render(3, 1, &["a"], 90, true)], 3, 1);
    let m = p.merged.unwrap();
    assert_eq!(m.auth_from, Some(0));
    assert_eq!(m.reqs, vec![(0, 0)]);
}
