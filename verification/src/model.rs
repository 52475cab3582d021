//! The values a menu file describes: its settings and its items.

use vstd::prelude::*;

verus! {

/// What choosing an item does.
#[derive(Debug)]
pub enum Action {
    /// Run a command line.
    Exec(String),
    /// Open a submenu: `*name` names a section of the same file, anything
    /// else a file next to it.
    Submenu(String),
    /// Leave the current submenu.
    Back,
}

pub enum ActionView {
    Exec(Seq<char>),
    Submenu(Seq<char>),
    Back,
}

impl View for Action {
    type V = ActionView;

    open spec fn view(&self) -> ActionView {
        match self {
            Action::Exec(c) => ActionView::Exec(c@),
            Action::Submenu(s) => ActionView::Submenu(s@),
            Action::Back => ActionView::Back,
        }
    }
}

/// One entry of a menu.
#[derive(Debug)]
pub struct Item {
    pub name: String,
    pub action: Action,
    pub icon: Option<String>,
}

pub struct ItemView {
    pub name: Seq<char>,
    pub action: ActionView,
    pub icon: Option<Seq<char>>,
}

pub open spec fn opt_view(o: Option<String>) -> Option<Seq<char>> {
    match o {
        Some(s) => Some(s@),
        None => None,
    }
}

impl View for Item {
    type V = ItemView;

    open spec fn view(&self) -> ItemView {
        ItemView { name: self.name@, action: self.action@, icon: opt_view(self.icon) }
    }
}

/// The views of a list of items.
pub open spec fn items_view(items: Seq<Item>) -> Seq<ItemView> {
    items.map_values(|i: Item| i@)
}

/// The settings of a menu.
#[derive(Debug)]
pub struct Config {
    /// The launcher to show the menu with (empty: rofi).
    pub menu: String,
    /// The prompt (empty: "menupp").
    pub title: String,
    /// The name of the item that leaves a submenu.
    pub backtext: String,
    /// Whether a submenu gets that item.
    pub back: bool,
    /// The label and the command line run when the choice names no item.
    pub no_result: Option<(String, String)>,
}

pub struct ConfigView {
    pub menu: Seq<char>,
    pub title: Seq<char>,
    pub backtext: Seq<char>,
    pub back: bool,
    pub no_result: Option<(Seq<char>, Seq<char>)>,
}

impl View for Config {
    type V = ConfigView;

    open spec fn view(&self) -> ConfigView {
        ConfigView {
            menu: self.menu@,
            title: self.title@,
            backtext: self.backtext@,
            back: self.back,
            no_result: match self.no_result {
                Some((l, c)) => Some((l@, c@)),
                None => None,
            },
        }
    }
}

/// The settings of a menu file that sets none.
pub open spec fn default_config() -> ConfigView {
    ConfigView {
        menu: seq![],
        title: seq![],
        backtext: "Back"@,
        back: true,
        no_result: None,
    }
}

impl Default for Config {
    fn default() -> (r: Self)
        ensures
            r@ == default_config(),
    {
        Config {
            menu: String::new(),
            title: String::new(),
            backtext: crate::text::string_of(&crate::text::chars_of("Back")),
            back: true,
            no_result: None,
        }
    }
}

/// An entry of a menu file's item list: an item, or a source of items
/// (an `ItemsJSON:` line) whose items come from running it.
#[derive(Debug)]
pub enum Entry {
    Item(Item),
    Json(String),
}

pub enum EntryView {
    Item(ItemView),
    Json(Seq<char>),
}

impl View for Entry {
    type V = EntryView;

    open spec fn view(&self) -> EntryView {
        match self {
            Entry::Item(i) => EntryView::Item(i@),
            Entry::Json(c) => EntryView::Json(c@),
        }
    }
}

pub open spec fn entries_view(entries: Seq<Entry>) -> Seq<EntryView> {
    entries.map_values(|e: Entry| e@)
}

/// A parsed menu file (or section): its settings and its item list.
#[derive(Debug)]
pub struct Document {
    pub config: Config,
    pub entries: Vec<Entry>,
}

} // verus!
