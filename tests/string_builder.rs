use menu::StringBuilder;

const SEP: &str = "\n ___________________________ \n ";

#[test]
fn absent_field_alone_builds_empty() {
    assert_eq!(StringBuilder::new().add("Label", None).get_str(), "");
}

#[test]
fn no_fields_builds_empty() {
    assert_eq!(StringBuilder::new().get_str(), "");
}

#[test]
fn single_field_renders_one_fragment() {
    let s = StringBuilder::new().add("Name", Some("Tea".to_string())).get_str();
    assert_eq!(s, " - Name Tea ");
}

#[test]
fn present_fields_joined_absent_skipped() {
    let s = StringBuilder::new()
        .add("Size", Some("Large".to_string()))
        .add("Color", None)
        .add("Price", Some("9.99".to_string()))
        .get_str();
    assert_eq!(s, format!(" - Size Large {} - Price 9.99 ", SEP));
    assert!(!s.contains("Color"));
}

#[test]
fn fragments_keep_order_and_duplicates() {
    let s = StringBuilder::new()
        .add("b", Some("2".to_string()))
        .add("a", Some("1".to_string()))
        .add("b", Some("2".to_string()))
        .get_str();
    assert_eq!(s, format!(" - b 2 {} - a 1 {} - b 2 ", SEP, SEP));
}

#[test]
fn empty_label_and_value_still_render() {
    let s = StringBuilder::new().add("", Some(String::new())).get_str();
    assert_eq!(s, " -   ");
}
