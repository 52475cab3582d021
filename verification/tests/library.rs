use menupp::command::split_command;
use menupp::desktop::{
    application_entry, desktop_exec, desktop_fields, field_value, generate_applist_json,
    has_desktop_extension,
};
use menupp::items_json::{items_source, parse_items_json_output, ItemsJsonError, ItemsSource};
use menupp::menu::{expand_entries, parse, parse_document, parse_named_section, section_content};
use menupp::model::{Action, Config, Entry, Item};
use menupp::session::{choose_step, launcher, launcher_choice, launcher_input, with_back_item, Step};
use menupp::syntax::{parse_exec, parse_kv, parse_submenu, strip_quotes};

fn exec_item(name: &str, command: &str) -> Item {
    Item { name: name.to_string(), action: Action::Exec(command.to_string()), icon: None }
}

fn submenu_item(name: &str, target: &str) -> Item {
    Item { name: name.to_string(), action: Action::Submenu(target.to_string()), icon: None }
}

#[test]
fn strip_quotes_takes_the_text_between_quotes() {
    assert_eq!(strip_quotes("  \"rofi\"  "), Some("rofi".to_string()));
    assert_eq!(strip_quotes("\"\""), Some(String::new()));
    assert_eq!(strip_quotes("\""), None);
    assert_eq!(strip_quotes("rofi"), None);
    assert_eq!(strip_quotes("\"open"), None);
}

#[test]
fn parse_kv_splits_at_the_first_equals_sign() {
    assert_eq!(
        parse_kv("\"About\" = exec(\"a=b\")"),
        Some(("About".to_string(), "exec(\"a=b\")".to_string()))
    );
    assert_eq!(parse_kv("About = x"), None);
    assert_eq!(parse_kv("\"About\" x"), None);
    assert_eq!(parse_kv("\"k\"="), Some(("k".to_string(), String::new())));
}

#[test]
fn parse_exec_and_submenu_read_their_argument() {
    assert_eq!(parse_exec(" exec( \"firefox --new\" ) "), Some("firefox --new".to_string()));
    assert_eq!(parse_exec("exec(firefox)"), None);
    assert_eq!(parse_exec("exec(\"x\""), None);
    assert_eq!(parse_exec("exec("), None);
    assert_eq!(parse_submenu("submenu(\"*apps\")"), Some("*apps".to_string()));
    assert_eq!(parse_submenu("exec(\"x\")"), None);
}

#[test]
fn split_command_handles_quotes_and_escapes() {
    let args = |v: &[&str]| Some(v.iter().map(|s| s.to_string()).collect::<Vec<_>>());
    assert_eq!(split_command("kitty -c  fastfetch "), args(&["kitty", "-c", "fastfetch"]));
    assert_eq!(split_command("echo 'a b' \"c d\""), args(&["echo", "a b", "c d"]));
    assert_eq!(split_command("echo a\\ b"), args(&["echo", "a b"]));
    assert_eq!(split_command("echo 'a\\b'"), args(&["echo", "a\\b"]));
    assert_eq!(split_command("echo \"\" x"), args(&["echo", "x"]));
    assert_eq!(split_command(""), args(&[]));
    assert_eq!(split_command("echo 'open"), None);
    assert_eq!(split_command("echo \\"), None);
}

#[test]
fn default_config_has_back_item_named_back() {
    let c = Config::default();
    assert_eq!(c.menu, "");
    assert_eq!(c.title, "");
    assert_eq!(c.backtext, "Back");
    assert!(c.back);
    assert!(c.no_result.is_none());
}

#[test]
fn parse_reads_settings() {
    let content = "# a comment\r\nConfig:\r\n  \"menu\" = \"fuzzel\"\r\n\"title\" = Apps\r\n\"backtext\" = \"Up\"\r\n\"back\" = \"false\"\r\n\"other\" = \"x\"\r\n";
    let (config, items) = parse(content);
    assert_eq!(config.menu, "fuzzel");
    assert_eq!(config.title, "Apps");
    assert_eq!(config.backtext, "Up");
    assert!(!config.back);
    assert!(items.is_empty());
}

#[test]
fn parse_back_false_without_quotes() {
    let (config, _) = parse("Config:\n\"back\" = false\n");
    assert!(!config.back);
    let (config, _) = parse("Config:\n\"back\" = \"no\"\n");
    assert!(config.back);
}

#[test]
fn parse_reads_items_in_order_and_skips_bad_lines() {
    let content = "Items:\n\"A\" = exec(\"a\")\nnot an item\n\"B\" = submenu(\"b.mpp\")\n\"C\" = unknown(\"x\")\n\"D\" = exec(\"d\")\n";
    let (_, items) = parse(content);
    assert_eq!(items.len(), 3);
    assert_eq!(items[0].name, "A");
    assert!(matches!(&items[0].action, Action::Exec(c) if c == "a"));
    assert!(matches!(&items[1].action, Action::Submenu(s) if s == "b.mpp"));
    assert_eq!(items[2].name, "D");
    assert!(items.iter().all(|i| i.icon.is_none()));
}

#[test]
fn later_function_definition_wins() {
    let content = "Functions:\nf(x) = exec(\"one ${x}\")\nf(y) = exec(\"two ${y} ${y}\")\nItems:\n\"A\" = f(\"v\")\n";
    let (_, items) = parse(content);
    assert!(matches!(&items[0].action, Action::Exec(c) if c == "two v v"));
}

#[test]
fn lines_before_blocks_and_after_sections_are_ignored() {
    let content = "\"X\" = exec(\"x\")\nItems:\n\"A\" = exec(\"a\")\n*more:\nItems:\n\"B\" = exec(\"b\")\n";
    let (_, items) = parse(content);
    assert_eq!(items.len(), 1);
    assert_eq!(items[0].name, "A");
}

#[test]
fn named_section_text_joins_its_lines() {
    let content = "Items:\n\"A\" = exec(\"a\")\n*s:\nItems:\n  \"B\" = exec(\"b\")\n*t:\n\"C\" = exec(\"c\")\n  *s:\n\"D\" = exec(\"d\")\n* s :\n\"E\" = exec(\"e\")\n";
    assert_eq!(section_content(content, "s"), "Items:\n  \"B\" = exec(\"b\")\n\"D\" = exec(\"d\")");
    let (_, items) = parse_named_section(content, "s");
    assert_eq!(items.len(), 2);
    assert_eq!(items[1].name, "D");
    let (_, none) = parse_named_section(content, "zzz");
    assert!(none.is_empty());
}

#[test]
fn parse_document_keeps_item_sources_in_place() {
    let content = "ItemsJSON:\napplist()\nItems:\n\"A\" = exec(\"a\")\nItemsJSON:\nexec(\"list --json\")\nnonsense\napplist(noIcons)\n";
    let doc = parse_document(content);
    assert_eq!(doc.entries.len(), 4);
    assert!(matches!(&doc.entries[0], Entry::Json(s) if s == "applist()"));
    assert!(matches!(&doc.entries[1], Entry::Item(i) if i.name == "A"));
    assert!(matches!(&doc.entries[2], Entry::Json(s) if s == "list --json"));
    assert!(matches!(&doc.entries[3], Entry::Json(s) if s == "applist(noIcons)"));

    let outputs = vec![
        vec![exec_item("Firefox", "firefox")],
        vec![],
        vec![exec_item("X", "x"), exec_item("Y", "y")],
    ];
    let items = expand_entries(&doc.entries, &outputs);
    let names: Vec<&str> = items.iter().map(|i| i.name.as_str()).collect();
    assert_eq!(names, vec!["Firefox", "A", "X", "Y"]);

    let (_, written) = parse(content);
    assert_eq!(written.len(), 1);
    let empty = vec![vec![], vec![], vec![]];
    assert_eq!(expand_entries(&doc.entries, &empty).len(), written.len());
}

#[test]
fn items_json_output_is_read_into_items() {
    let items = parse_items_json_output(
        r#"[{"name":"Firefox","exec":"firefox","icon":"firefox"},{"name":"Discord","exec":"discord"},{"name":"NoExec"},{"exec":"x"},3]"#,
    )
    .unwrap();
    assert_eq!(items.len(), 2);
    assert_eq!(items[0].name, "Firefox");
    assert!(matches!(&items[0].action, Action::Exec(c) if c == "firefox"));
    assert_eq!(items[0].icon.as_deref(), Some("firefox"));
    assert_eq!(items[1].name, "Discord");
    assert!(items[1].icon.is_none());
}

#[test]
fn items_json_output_errors() {
    assert_eq!(parse_items_json_output("not json").unwrap_err(), ItemsJsonError::Malformed);
    assert_eq!(parse_items_json_output("{\"name\":\"x\"}").unwrap_err(), ItemsJsonError::NotArray);
    assert!(parse_items_json_output("[]").unwrap().is_empty());
}

#[test]
fn items_source_classifies_sources() {
    assert!(matches!(items_source("applist()"), ItemsSource::Applist { no_icons: false }));
    assert!(matches!(items_source("applist(noIcons)"), ItemsSource::Applist { no_icons: true }));
    assert!(matches!(items_source("printf '%s' '[]'"), ItemsSource::Command(a) if a == vec!["printf", "%s", "[]"]));
    assert!(matches!(items_source("  "), ItemsSource::Invalid));
    assert!(matches!(items_source("echo 'x"), ItemsSource::Invalid));
}

#[test]
fn desktop_fields_and_values() {
    let contents = "[Desktop Entry]\nName=Firefox\nExec=firefox %u\nName=Web=Browser\n";
    let fields = desktop_fields(contents);
    assert_eq!(fields.len(), 2);
    assert_eq!(fields[0], ("Name".to_string(), "Web=Browser".to_string()));
    assert_eq!(fields[1], ("Exec".to_string(), "firefox %u".to_string()));
    assert_eq!(field_value(&fields, "Name"), Some("Web=Browser".to_string()));
    assert_eq!(field_value(&fields, "Icon"), None);
}

#[test]
fn desktop_exec_drops_field_codes() {
    assert_eq!(desktop_exec("firefox %u"), "firefox");
    assert_eq!(desktop_exec("  env  A=1 app %F --flag  "), "env A=1 app --flag");
    assert_eq!(desktop_exec(""), "");
}

#[test]
fn application_entries() {
    let app = application_entry("Name=Files\nExec=nautilus %U\nIcon=folder\n", false).unwrap();
    assert_eq!(app.name, "Files");
    assert_eq!(app.command, "nautilus");
    assert_eq!(app.icon.as_deref(), Some("folder"));
    let app = application_entry("Name=Files\nExec=nautilus\nIcon=folder\n", true).unwrap();
    assert!(app.icon.is_none());
    assert!(application_entry("Type=Link\nName=A\nExec=a\n", false).is_none());
    assert!(application_entry("Type=Application\nName=A\nExec=a\nNoDisplay=true\n", false).is_none());
    assert!(application_entry("Name=A\nExec=a\nHidden=true\n", false).is_none());
    assert!(application_entry("Name=A\nExec=a\nHidden=false\n", false).is_some());
    assert!(application_entry("Name=A\n", false).is_none());
}

#[test]
fn back_item_comes_first_in_submenus() {
    let config = Config::default();
    let items = with_back_item(&config, vec![exec_item("A", "a")], true);
    assert_eq!(items.len(), 2);
    assert_eq!(items[0].name, "Back");
    assert!(matches!(items[0].action, Action::Back));
    let items = with_back_item(&config, vec![exec_item("A", "a")], false);
    assert_eq!(items.len(), 1);
    let (no_back, _) = parse("Config:\n\"back\" = false\n");
    assert_eq!(with_back_item(&no_back, vec![], true).len(), 0);
}

#[test]
fn choices_lead_to_steps() {
    let mut config = Config::default();
    let items = with_back_item(
        &config,
        vec![exec_item("A", "run a"), submenu_item("S", "*apps"), submenu_item("F", "more.mpp"), exec_item("A", "other")],
        true,
    );
    assert!(matches!(choose_step(&config, &items, "A"), Step::Run(c) if c == "run a"));
    assert!(matches!(choose_step(&config, &items, "S"), Step::OpenSection(s) if s == "apps"));
    assert!(matches!(choose_step(&config, &items, "F"), Step::OpenFile(s) if s == "more.mpp"));
    assert!(matches!(choose_step(&config, &items, "Back"), Step::Leave));
    assert!(matches!(choose_step(&config, &items, "zzz"), Step::Leave));
    config.no_result = Some(("Search".to_string(), "./search ${term} ${term}".to_string()));
    assert!(matches!(choose_step(&config, &items, "cats"), Step::Run(c) if c == "./search cats cats"));
}

#[test]
fn launchers() {
    let mut config = Config::default();
    let l = launcher(&config).unwrap();
    assert_eq!(l.program, "rofi");
    assert_eq!(l.args, vec!["-dmenu", "-i", "-p", "menupp"]);
    config.menu = "wofi".to_string();
    config.title = "Apps".to_string();
    let l = launcher(&config).unwrap();
    assert_eq!(l.program, "wofi");
    assert_eq!(l.args, vec!["--dmenu", "--prompt", "Apps"]);
    config.menu = "fuzzel".to_string();
    let l = launcher(&config).unwrap();
    assert_eq!(l.args, vec!["--dmenu"]);
    config.menu = "dmenu".to_string();
    assert_eq!(launcher(&config).unwrap_err(), "dmenu");
}

#[test]
fn launcher_input_and_choice() {
    let items = vec![exec_item("A", "a"), exec_item("B b", "b")];
    assert_eq!(launcher_input(&items), "A\nB b");
    assert_eq!(launcher_input(&vec![]), "");
    assert_eq!(launcher_choice("  B b\n"), Some("B b".to_string()));
    assert_eq!(launcher_choice(" \n"), None);
}

#[test]
fn trailing_comment_after_a_setting_is_dropped() {
    let content = "Config:\n    \"menu\" = \"rofi\" # also fuzzel\n    \"title\" = \"Menu\"\n";
    let (config, _) = parse(content);
    assert_eq!(config.menu, "rofi");
    assert_eq!(config.title, "Menu");
    let (config, _) = parse("Config:\n\"title\" = \"A # B\" # note\n\"back\" = false # never\n");
    assert_eq!(config.title, "A # B");
    assert!(!config.back);
    let (config, _) = parse("Config:\n\"title\" = Plain text # note\n");
    assert_eq!(config.title, "Plain text");
}

#[test]
fn readme_example_names_a_supported_launcher() {
    let content = "Config:\n    \"menu\" = \"rofi\" # also fuzzel\n    \"title\" = \"Menu\"\n\nItems:\n    \"About\" = submenu(\"*applist\")\n\n*applist:\n\n    Config:\n        \"menu\" = \"rofi\"\n        \"title\" = \"Launch\"\n\n    ItemsJSON:\n        applist()\n";
    let (config, items) = parse(content);
    let l = launcher(&config).unwrap();
    assert_eq!(l.program, "rofi");
    assert_eq!(l.args, vec!["-dmenu", "-i", "-p", "Menu"]);
    assert!(matches!(choose_step(&config, &items, "About"), Step::OpenSection(s) if s == "applist"));
    let doc = parse_document(&section_content(content, "applist"));
    assert_eq!(doc.config.title, "Launch");
    assert!(matches!(&doc.entries[0], Entry::Json(s) if s == "applist()"));
}

#[test]
fn applist_json_lists_applications_as_items() {
    let files = vec![
        "[Desktop Entry]\nName=Files \"x\"\nExec=nautilus %U\nIcon=folder\n".to_string(),
        "Name=Hidden\nExec=h\nHidden=true\n".to_string(),
        "Name=Term\nExec=kitty\n".to_string(),
    ];
    let json = generate_applist_json(&files, false);
    let items = parse_items_json_output(&json).unwrap();
    assert_eq!(items.len(), 2);
    assert_eq!(items[0].name, "Files \"x\"");
    assert!(matches!(&items[0].action, Action::Exec(c) if c == "nautilus"));
    assert_eq!(items[0].icon.as_deref(), Some("folder"));
    assert_eq!(items[1].name, "Term");
    assert!(items[1].icon.is_none());
    let items = parse_items_json_output(&generate_applist_json(&files, true)).unwrap();
    assert!(items[0].icon.is_none());
    assert_eq!(generate_applist_json(&vec![], false), "[]");
}

#[test]
fn desktop_file_names() {
    assert!(has_desktop_extension("firefox.desktop"));
    assert!(has_desktop_extension("a.b.desktop"));
    assert!(!has_desktop_extension(".desktop"));
    assert!(!has_desktop_extension("firefox.desktop.bak"));
    assert!(!has_desktop_extension("desktop"));
}

#[test]
fn settings_stay_default_without_config_block() {
    let (config, _) = parse("");
    assert_eq!(config.menu, "");
    assert_eq!(config.backtext, "Back");
    assert!(config.back);
    let (config, _) = parse("Items:\n\"A\" = exec(\"a\")\n*s:\nConfig:\n\"menu\" = \"wofi\"\nNo-result-found:\n\"x\" = exec(\"y\")\n");
    assert_eq!(config.menu, "");
    assert!(config.no_result.is_none());
}

#[test]
fn back_once_off_stays_off() {
    let (config, _) = parse("Config:\n\"back\" = \"false\"\n\"back\" = \"true\"\n");
    assert!(!config.back);
    let (config, _) = parse("Items:\n\"back\" = false\n");
    assert!(config.back);
}

#[test]
fn blank_and_comment_lines_change_nothing() {
    let plain = "Config:\n\"menu\" = \"wofi\"\nItems:\n\"A\" = exec(\"a\")\n\"B\" = exec(\"b\")\n";
    let padded = "\n# top\nConfig:\n   \n\"menu\" = \"wofi\"\n  # note\nItems:\n\"A\" = exec(\"a\")\n\n#\"C\" = exec(\"c\")\n\"B\" = exec(\"b\")\n";
    let (c1, i1) = parse(plain);
    let (c2, i2) = parse(padded);
    assert_eq!(c1.menu, c2.menu);
    let names1: Vec<&str> = i1.iter().map(|i| i.name.as_str()).collect();
    let names2: Vec<&str> = i2.iter().map(|i| i.name.as_str()).collect();
    assert_eq!(names1, names2);
}

#[test]
fn desktop_exec_is_idempotent() {
    for c in ["firefox %u", "  a   b %F c ", "", "%f", "x\t%U\ty"] {
        let once = desktop_exec(c);
        assert_eq!(desktop_exec(&once), once);
    }
}

#[test]
fn desktop_field_without_equals_in_key() {
    let fields = desktop_fields("A=1\nB\nA=2\n A=3\n");
    assert_eq!(fields.len(), 2);
    assert_eq!(field_value(&fields, "A"), Some("2".to_string()));
    assert_eq!(field_value(&fields, " A"), Some("3".to_string()));
    assert_eq!(field_value(&fields, "B"), None);
}

#[test]
fn desktop_fields_hold_one_entry_per_key() {
    let c = "Name=Firefox\n[Desktop Action new-window]\nName=New Window\nExec=env A=1 app\nKey = v";
    let fields = desktop_fields(c);
    assert_eq!(fields.len(), 3);
    assert_eq!(field_value(&fields, "Name"), Some("New Window".to_string()));
    assert_eq!(field_value(&fields, "Exec"), Some("env A=1 app".to_string()));
    assert_eq!(field_value(&fields, "Key "), Some(" v".to_string()));
}

#[test]
fn applist_json_objects_hold_exactly_their_keys() {
    let files = vec![
        "Name=A\nExec=a %f\nIcon=i\n".to_string(),
        "Name=B\nExec=b\n".to_string(),
    ];
    let value: serde_json::Value = serde_json::from_str(&generate_applist_json(&files, false)).unwrap();
    let array = value.as_array().unwrap();
    assert_eq!(array.len(), 2);
    let keys = |v: &serde_json::Value| {
        let mut k: Vec<String> = v.as_object().unwrap().keys().cloned().collect();
        k.sort();
        k
    };
    assert_eq!(keys(&array[0]), vec!["exec", "icon", "name"]);
    assert_eq!(keys(&array[1]), vec!["exec", "name"]);
    assert_eq!(array[0]["exec"], "a");
}
