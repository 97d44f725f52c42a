use osm_graph::cli::CmdArgs;

fn args(v: &[&str]) -> Vec<String> {
    v.iter().map(|s| s.to_string()).collect()
}

#[test]
fn arguments_are_sorted_and_taken() {
    let mut a = CmdArgs::new(args(&["--verbose", "map=seattle", "in.osm", "n=5", "out.bin"])).unwrap();
    assert!(!a.done());
    assert!(a.enabled("--verbose"));
    assert!(!a.enabled("--quiet"));
    assert_eq!(a.required("map"), "seattle");
    assert_eq!(a.optional("zoom"), None);
    assert_eq!(a.optional_parse("n", |s: &str| s.parse::<u32>()), Some(5));
    assert_eq!(a.required_free(), "in.osm");
    assert_eq!(a.optional_free(), Some("out.bin".to_string()));
    assert_eq!(a.optional_free(), None);
    assert!(a.done());
}

#[test]
fn argument_with_two_equals_is_refused() {
    assert_eq!(CmdArgs::new(args(&["a=b", "x=y=z"])).err(), Some("x=y=z".to_string()));
}

#[test]
fn later_value_wins_and_empty_parts_are_kept() {
    let mut a = CmdArgs::new(args(&["k=1", "k=2", "e="])).unwrap();
    assert_eq!(a.optional("k"), Some("2".to_string()));
    assert_eq!(a.required("e"), "");
    assert!(a.done());
}
