use rust_kart::kart::{
    command_name, command_names, command_path, completes_command_name, discover_commands, name_completions, parse_completion,
    skip_dashes,
};

fn strs(v: &[&str]) -> Vec<String> {
    v.iter().map(|s| s.to_string()).collect()
}

#[test]
fn command_names_drop_the_kart_prefix() {
    assert_eq!(command_name("kart-build"), "build");
    assert_eq!(command_name("deploy"), "deploy");
    assert_eq!(command_name("kart-"), "");
    assert_eq!(command_name("kar"), "kar");
}

#[test]
fn the_first_directory_providing_a_command_wins() {
    let found = vec![
        ("kart-build".to_string(), "/a/kart-build".to_string()),
        ("deploy".to_string(), "/a/deploy".to_string()),
        ("build".to_string(), "/b/build".to_string()),
        ("kart-deploy".to_string(), "/b/kart-deploy".to_string()),
    ];
    let cmds = discover_commands(&found);
    assert_eq!(
        cmds,
        vec![
            ("build".to_string(), "/a/kart-build".to_string()),
            ("deploy".to_string(), "/a/deploy".to_string()),
        ]
    );
}

#[test]
fn completing_the_command_name_itself() {
    assert!(completes_command_name(&strs(&[])));
    assert!(completes_command_name(&strs(&["bu"])));
    assert!(!completes_command_name(&strs(&["-x"])));
    assert!(!completes_command_name(&strs(&["build", "x"])));
    assert!(completes_command_name(&strs(&[""])));
}

#[test]
fn names_completing_a_prefix() {
    let names = strs(&["build", "bump", "deploy"]);
    assert_eq!(name_completions(&names, "bu"), strs(&["build", "bump"]));
    assert_eq!(name_completions(&names, ""), names);
    assert_eq!(name_completions(&names, "x"), strs(&[]));
}

#[test]
fn completion_lines_split_at_the_first_tab() {
    assert_eq!(
        parse_completion("--verbose\tmore output\tnow"),
        ("--verbose".to_string(), Some("more output\tnow".to_string()))
    );
    assert_eq!(parse_completion("plain"), ("plain".to_string(), None));
    assert_eq!(parse_completion("\t"), (String::new(), Some(String::new())));
}

#[test]
fn leading_double_dashes_are_dropped() {
    assert_eq!(skip_dashes(&strs(&["--", "--", "a", "--"])), strs(&["a", "--"]));
    assert_eq!(skip_dashes(&strs(&["a"])), strs(&["a"]));
}

#[test]
fn commands_are_looked_up_and_listed_by_name() {
    let cmds = vec![
        ("zeta".to_string(), "/a/kart-zeta".to_string()),
        ("alpha".to_string(), "/b/alpha".to_string()),
    ];
    assert_eq!(command_path(&cmds, "alpha"), Some("/b/alpha".to_string()));
    assert_eq!(command_path(&cmds, "beta"), None);
    assert_eq!(command_names(&cmds), vec!["alpha".to_string(), "zeta".to_string()]);
}
