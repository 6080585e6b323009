use image_viewer::sessions::add_recent_session;

#[test]
fn recent_session_goes_first() {
    let mut list = vec!["/s/a.json".to_string(), "/s/b.json".to_string()];
    add_recent_session(&mut list, "/s/c.json");
    assert_eq!(list, vec!["/s/c.json", "/s/a.json", "/s/b.json"]);
}

#[test]
fn recent_session_moves_existing_entry() {
    let mut list = vec!["/s/a.json".to_string(), "/s/b.json".to_string(), "/s/c.json".to_string()];
    add_recent_session(&mut list, "/s/b.json");
    assert_eq!(list, vec!["/s/b.json", "/s/a.json", "/s/c.json"]);
}

#[test]
fn recent_sessions_keep_ten() {
    let mut list: Vec<String> = (0..10).map(|i| format!("/s/{}.json", i)).collect();
    add_recent_session(&mut list, "/s/new.json");
    assert_eq!(list.len(), 10);
    assert_eq!(list[0], "/s/new.json");
    assert_eq!(list[9], "/s/8.json");
}

#[test]
fn recent_session_into_empty_list() {
    let mut list: Vec<String> = Vec::new();
    add_recent_session(&mut list, "/s/a.json");
    assert_eq!(list, vec!["/s/a.json"]);
}
