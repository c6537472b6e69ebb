use web_uptime_monitor::error::ApiError;
use web_uptime_monitor::website::{validate_website, Website};

#[test]
fn valid_url_is_accepted() {
    let r = validate_website("https://a.test".to_string(), "a".to_string());
    assert_eq!(r, Ok(Website { url: "https://a.test".to_string(), alias: "a".to_string() }));
}

#[test]
fn invalid_url_is_refused() {
    let r = validate_website("not a url".to_string(), "x".to_string());
    assert_eq!(r, Err(ApiError::InvalidUrl("not a url".to_string())));
    let e = validate_website(String::new(), "y".to_string()).unwrap_err();
    assert_eq!(e.http_status(), 500);
    assert_eq!(e.description(), "");
}
