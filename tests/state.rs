use robojules::logic::LogicError;
use robojules::state::{AppState, AsyncState, ViewType};

#[test]
fn async_state_records_outcomes() {
    let mut s: AsyncState<u32> = AsyncState::new(Some(1));
    assert_eq!(s.value, Some(1));
    assert!(!s.working);
    s.start();
    assert!(s.working);
    assert_eq!(s.value, Some(1));
    s.set(Ok(5));
    assert_eq!(s.value, Some(5));
    assert!(!s.working);
    assert!(s.error.is_none());
    s.start();
    s.set(Err(LogicError::new("boom".to_string())));
    assert_eq!(s.value, None);
    assert!(!s.working);
    assert_eq!(s.error.as_ref().unwrap().message(), "boom");
    s.clear();
    assert!(s.value.is_none() && s.error.is_none() && !s.working);
}

#[test]
fn app_state_starts_empty() {
    let s = AppState::default();
    assert_eq!(s.pull_request_id, 0);
    assert!(s.pull_request_update.value.is_none());
    assert!(s.selected_extension.is_none());
    assert_eq!(s.view_type, ViewType::Source);
    assert_eq!(ViewType::default(), ViewType::Source);
    assert!(s.diff.is_none());
    let d: AsyncState<String> = AsyncState::default();
    assert!(d.value.is_none() && !d.working);
}
