use argparse::args::Arg;

#[test]
fn descriptor_holds_name_and_type() {
    let arg = Arg::new(String::from("count"), String::from("integer"));
    assert_eq!(arg.properties.get("name"), Some(&String::from("count")));
    assert_eq!(arg.properties.get("type"), Some(&String::from("integer")));
    assert_eq!(arg.properties.len(), 2);
}

#[test]
fn descriptor_accepts_any_text() {
    let arg = Arg::new(String::new(), String::from("--="));
    assert_eq!(arg.properties.get("name"), Some(&String::new()));
    assert_eq!(arg.properties.get("type"), Some(&String::from("--=")));
}
