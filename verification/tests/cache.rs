use euv_app::cache::{check_body_size, check_response_head, CacheError, CacheUpdateStatus, MAX_BODY_SIZE};

fn fetch_message(r: Result<(), CacheError>) -> String {
    match r {
        Err(CacheError::Fetch(m)) => m,
        other => panic!("unexpected {:?}", other),
    }
}

#[test]
fn error_texts() {
    assert_eq!(CacheError::Fetch("x".to_string()).to_string(), "Fetch: x");
    assert_eq!(CacheError::Write("y".to_string()).to_string(), "Write: y");
    assert_eq!(CacheError::Read("z".to_string()).to_string(), "Read: z");
}

#[test]
fn update_status_tags() {
    assert_eq!(CacheUpdateStatus::Success.as_tag(), "success");
    assert_eq!(CacheUpdateStatus::Failed.as_tag(), "failed");
}

#[test]
fn response_head_checks() {
    assert_eq!(fetch_message(check_response_head(false, "404 Not Found", None)), "HTTP 404 Not Found");
    assert_eq!(
        fetch_message(check_response_head(true, "200 OK", Some(10485761))),
        "Too large: 10485761 bytes"
    );
    assert!(check_response_head(true, "200 OK", Some(MAX_BODY_SIZE as u64)).is_ok());
    assert!(check_response_head(true, "200 OK", None).is_ok());
    assert_eq!(fetch_message(check_response_head(false, "500", Some(1 << 40))), "HTTP 500");
    assert_eq!(
        fetch_message(check_response_head(true, "200 OK", Some((1u64 << 32) + 1))),
        "Too large: 4294967297 bytes"
    );
}

#[test]
fn body_size_checks() {
    let ok = check_body_size(vec![1, 2, 3]).unwrap();
    assert_eq!(ok, vec![1, 2, 3]);
    match check_body_size(vec![0; MAX_BODY_SIZE + 1]) {
        Err(CacheError::Fetch(m)) => assert_eq!(m, "Too large: 10485761 bytes"),
        other => panic!("unexpected {:?}", other.map(|v| v.len())),
    }
    assert_eq!(check_body_size(vec![0; MAX_BODY_SIZE]).unwrap().len(), MAX_BODY_SIZE);
}
