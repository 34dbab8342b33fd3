use httpserver::headers::HeaderMap;

#[test]
fn new_header_map_is_empty() {
    let m = HeaderMap::new();
    assert_eq!(m.len(), 0);
    assert!(m.is_empty());
    assert!(!m.contains_key("Host"));
    assert_eq!(m.get("Host"), None);
}

#[test]
fn insert_adds_a_header() {
    let mut m = HeaderMap::new();
    m.insert("Host".to_string(), "a".to_string());
    assert_eq!(m.len(), 1);
    assert!(!m.is_empty());
    assert!(m.contains_key("Host"));
    assert!(!m.contains_key("host"));
    assert_eq!(m.get("Host"), Some(&"a".to_string()));
    assert_eq!(m.get("Accept"), None);
}

#[test]
fn insert_replaces_the_value_under_a_name() {
    let mut m = HeaderMap::new();
    m.insert("Host".to_string(), "a".to_string());
    m.insert("Accept".to_string(), "*/*".to_string());
    m.insert("Host".to_string(), "b".to_string());
    assert_eq!(m.len(), 2);
    assert_eq!(m.get("Host"), Some(&"b".to_string()));
    assert_eq!(m.get("Accept"), Some(&"*/*".to_string()));
}

#[test]
fn header_maps_compare_without_regard_to_order() {
    let mut a = HeaderMap::new();
    a.insert("Host".to_string(), "a".to_string());
    a.insert("Accept".to_string(), "*/*".to_string());
    let mut b = HeaderMap::new();
    b.insert("Accept".to_string(), "*/*".to_string());
    b.insert("Host".to_string(), "a".to_string());
    assert!(a == b);
    assert!(b == a);
}

#[test]
fn header_maps_with_different_contents_differ() {
    let mut a = HeaderMap::new();
    a.insert("Host".to_string(), "a".to_string());
    let mut b = HeaderMap::new();
    b.insert("Host".to_string(), "b".to_string());
    let mut c = HeaderMap::new();
    c.insert("Host".to_string(), "a".to_string());
    c.insert("Accept".to_string(), "*/*".to_string());
    let mut d = HeaderMap::new();
    d.insert("HOST".to_string(), "a".to_string());
    assert!(a != b);
    assert!(a != c);
    assert!(c != a);
    assert!(a != d);
    assert!(a != HeaderMap::new());
    assert!(HeaderMap::new() == HeaderMap::new());
}
