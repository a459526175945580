use meetily_speaker::commands::GAP_BORROW_MAX_MS;
use meetily_speaker::run_engine::{effective_continuation, BORROW_CAP_MS};

#[test]
fn borrow_cap_stays_in_sync_with_the_render_borrow() {
    assert_eq!(BORROW_CAP_MS, GAP_BORROW_MAX_MS);
}

#[test]
fn effective_continuation_values() {
    assert!(effective_continuation(true, "Okay."));
    assert!(effective_continuation(false, "and then"));
    assert!(!effective_continuation(false, "Then"));
    assert!(!effective_continuation(false, ""));
}
