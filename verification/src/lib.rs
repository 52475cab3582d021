//! Menu++: a small menu description language for dmenu-style launchers
//! (rofi, fuzzel, wofi).
//!
//! A menu file holds blocks: `Config:` settings, `Functions:` command
//! templates, `Items:` entries, `ItemsJSON:` sources of entries and a
//! `No-result-found:` fallback; `*name:` lines start named sections that
//! serve as inline submenus.

pub mod command;
pub mod desktop;
pub mod items_json;
pub mod menu;
pub mod model;
pub mod session;
pub mod syntax;
pub mod text;

pub use command::split_command;
pub use desktop::{
    application_entry, desktop_exec, desktop_fields, field_value, generate_applist_json,
    has_desktop_extension, DesktopEntry,
};
pub use items_json::{items_source, parse_items_json_output, ItemsJsonError, ItemsSource};
pub use menu::{expand_entries, parse, parse_document, parse_named_section, section_content};
pub use model::{Action, Config, Document, Entry, Item};
pub use session::{choose_step, launcher, launcher_choice, launcher_input, with_back_item, Launch, Step};
pub use syntax::{parse_exec, parse_kv, parse_submenu, strip_quotes};
