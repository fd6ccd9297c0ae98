use home_flow::fetch::{Headers, Request};

fn pairs(h: &Headers) -> Vec<(String, String)> {
    h.headers.clone()
}

#[test]
fn get_request() {
    let r = Request::get("http://host/api");
    assert_eq!(r.method, "GET");
    assert_eq!(r.url, "http://host/api");
    assert!(r.body.is_empty());
    assert_eq!(pairs(&r.headers), vec![("Accept".to_string(), "*/*".to_string())]);
}

#[test]
fn post_request() {
    let r = Request::post("http://host/save", vec![1, 2, 3]);
    assert_eq!(r.method, "POST");
    assert_eq!(r.url, "http://host/save");
    assert_eq!(r.body, vec![1, 2, 3]);
    assert_eq!(pairs(&r.headers), vec![("Accept".to_string(), "*/*".to_string())]);
}

#[test]
fn headers_keep_order() {
    let mut h = Headers::new(&[("A", "1"), ("B", "2")]);
    h.insert("A", "3");
    assert_eq!(
        pairs(&h),
        vec![("A".to_string(), "1".to_string()), ("B".to_string(), "2".to_string()), ("A".to_string(), "3".to_string())]
    );
    assert!(Headers::default().headers.is_empty());
}
