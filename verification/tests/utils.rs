use win_toast_notifier::utils::create_sample_notification;

#[test]
fn create_sample_notification_test() {
    let res = create_sample_notification("hello", "world", Some("yes,no".to_string()));
    println!("{}", res)
}

#[test]
fn sample_notification_with_buttons_exact() {
    let res = create_sample_notification("hello", "world", Some("yes,no".to_string()));
    let expected = "\n<toast>\n  <visual>\n    <binding template=\"ToastGeneric\">\n      \
                    <text>hello</text>\n      <text>world</text>\n    </binding>\n  </visual>\n    \
                    <actions><action arguments=\"yes\" content=\"yes\"/>\n\
                    <action arguments=\"no\" content=\"no\"/></actions>\n</toast>";
    assert_eq!(res, expected);
}

#[test]
fn sample_notification_without_buttons_exact() {
    let res = create_sample_notification("title", "body", None);
    let expected = "\n<toast>\n  <visual>\n    <binding template=\"ToastGeneric\">\n      \
                    <text>title</text>\n      <text>body</text>\n    </binding>\n  </visual>\n    \
                    \n</toast>";
    assert_eq!(res, expected);
}

#[test]
fn sample_notification_single_button() {
    let res = create_sample_notification("t", "m", Some("ok".to_string()));
    assert!(res.contains("<actions><action arguments=\"ok\" content=\"ok\"/></actions>"));
}

// An empty button list still splits into one (empty) caption, as the
// standard comma split does.
#[test]
fn sample_notification_empty_buttons() {
    let res = create_sample_notification("t", "m", Some(String::new()));
    assert!(res.contains("<actions><action arguments=\"\" content=\"\"/></actions>"));
}
