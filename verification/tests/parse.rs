use menupp::{parse, parse_named_section, Action};

#[test]
fn expands_function_argument_in_exec_command() {
    let content = r#"
Functions:
kitten(a) = exec("kitty -c ${a}")

Items:
"About" = kitten("fastfetch")
"#;

    let (_, items) = parse(content);

    assert_eq!(items.len(), 1);
    match &items[0].action {
        Action::Exec(command) => assert_eq!(command, "kitty -c fastfetch"),
        _ => panic!("expected an exec action"),
    }
}

#[test]
fn parses_inline_named_submenu() {
    let content = r#"
Config:
"menu" = "rofi"
Items:
"About" = submenu("*applist")

*applist:
Config:
"title" = "Launch"
Items:
"Firefox" = exec("firefox")
"#;

    let (config, items) = parse(content);
    assert_eq!(items.len(), 1);
    assert!(matches!(items[0].action, Action::Submenu(ref name) if name == "*applist"));

    let (submenu_config, submenu_items) = parse_named_section(content, "applist");
    assert_eq!(config.menu, "rofi");
    assert_eq!(submenu_config.title, "Launch");
    assert_eq!(submenu_items.len(), 1);
}

#[test]
fn parses_no_result_command() {
    let content = r#"
No-result-found:
"Search google for ${term}" = exec("./search ${term}")
"#;

    let (config, items) = parse(content);
    assert!(items.is_empty());
    assert_eq!(
        config.no_result.as_ref().map(|(_, command)| command.as_str()),
        Some("./search ${term}")
    );
}
