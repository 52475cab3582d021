//! Items from JSON: the output of an `ItemsJSON:` source is an array of
//! objects with a `name`, an `exec` command and an optional `icon`.

use vstd::prelude::*;
use crate::command::{
    is_plain_word, lemma_plain_command_splits_into_words, split_args, split_command,
};
use crate::text::{is_space, is_word, join, lemma_words_of_join, words};
use crate::model::{Action, ActionView, Item, ItemView, items_view};
use crate::syntax::opt_string_view;
use crate::text::{chars_of, is_text};

verus! {

/// One element of the array that an item source printed: the string
/// values of its `name`, `exec` and `icon` keys (`None`: absent, or not a
/// string), and the keys it has (`None`: it is no object).
#[derive(Debug)]
pub struct JsonEntry {
    pub name: Option<String>,
    pub command: Option<String>,
    pub icon: Option<String>,
    pub keys: Option<Vec<String>>,
}

pub struct JsonEntryView {
    pub name: Option<Seq<char>>,
    pub command: Option<Seq<char>>,
    pub icon: Option<Seq<char>>,
    pub keys: Option<Set<Seq<char>>>,
}

pub open spec fn key_set(keys: Option<Vec<String>>) -> Option<Set<Seq<char>>> {
    match keys {
        Some(ks) => Some(ks@.map_values(|k: String| k@).to_set()),
        None => None,
    }
}

impl View for JsonEntry {
    type V = JsonEntryView;

    open spec fn view(&self) -> JsonEntryView {
        JsonEntryView {
            name: opt_string_view(self.name),
            command: opt_string_view(self.command),
            icon: opt_string_view(self.icon),
            keys: key_set(self.keys),
        }
    }
}

/// What a text is as JSON.
#[derive(Debug)]
pub enum JsonDocument {
    Malformed,
    NotArray,
    Array(Vec<JsonEntry>),
}

pub enum JsonDocumentView {
    Malformed,
    NotArray,
    Array(Seq<JsonEntryView>),
}

impl View for JsonDocument {
    type V = JsonDocumentView;

    open spec fn view(&self) -> JsonDocumentView {
        match self {
            JsonDocument::Malformed => JsonDocumentView::Malformed,
            JsonDocument::NotArray => JsonDocumentView::NotArray,
            JsonDocument::Array(es) => JsonDocumentView::Array(
                es@.map_values(|e: JsonEntry| e@),
            ),
        }
    }
}

/// What `serde_json` reads from a text: malformed JSON, a value that is no
/// array, or an array whose elements' `name`, `exec` and `icon` strings
/// and keys are given.
pub uninterp spec fn json_document(text: Seq<char>) -> JsonDocumentView;

/// `serde_json::from_str::<serde_json::Value>`, then `Value::as_array`, and
/// for each element `Value::get` of the three keys with `Value::as_str`,
/// and the keys of `Value::as_object`.
/// Trusted: the result is `json_document` of the text, a function of the
/// text alone; nothing more of it is claimed.
#[verifier::external_body]
fn read_json(text: &str) -> (r: JsonDocument)
    ensures
        r@ == json_document(text@),
{
    let Ok(value) = serde_json::from_str::<serde_json::Value>(text) else {
        return JsonDocument::Malformed;
    };
    let Some(elements) = value.as_array() else {
        return JsonDocument::NotArray;
    };
    let text_of = |e: &serde_json::Value, k: &str| e.get(k).and_then(serde_json::Value::as_str).map(str::to_string);
    JsonDocument::Array(elements.iter().map(|e| JsonEntry {
        name: text_of(e, "name"),
        command: text_of(e, "exec"),
        icon: text_of(e, "icon"),
        keys: e.as_object().map(|o| o.keys().cloned().collect()),
    }).collect())
}

/// The items of the array's elements that have both a `name` and an
/// `exec` string: an item running that command, with the `icon` if any.
pub open spec fn json_items(es: Seq<JsonEntryView>) -> Seq<ItemView>
    decreases es.len(),
{
    if es.len() == 0 {
        seq![]
    } else {
        let p = json_items(es.drop_last());
        let e = es.last();
        match (e.name, e.command) {
            (Some(n), Some(c)) => p.push(ItemView { name: n, action: ActionView::Exec(c), icon: e.icon }),
            _ => p,
        }
    }
}

/// Why the output of an item source gave no items.
#[derive(Debug, PartialEq, Eq)]
pub enum ItemsJsonError {
    /// The output is not JSON.
    Malformed,
    /// The output is JSON, but no array.
    NotArray,
}

/// The items of the elements that have a `name` and an `exec` string.
pub fn items_from_json(entries: &Vec<JsonEntry>) -> (r: Vec<Item>)
    ensures
        items_view(r@) == json_items(entries@.map_values(|e: JsonEntry| e@)),
{
    let ghost es = entries@.map_values(|e: JsonEntry| e@);
    let mut r: Vec<Item> = Vec::new();
    let mut i: usize = 0;
    while i < entries.len()
        invariant
            i <= entries.len(),
            es == entries@.map_values(|e: JsonEntry| e@),
            items_view(r@) == json_items(es.take(i as int)),
        decreases entries.len() - i,
    {
        assert(es.take(i + 1).drop_last() == es.take(i as int));
        assert(es.take(i + 1).last() == entries@[i as int]@);
        let e = &entries[i];
        if let (Some(n), Some(c)) = (&e.name, &e.command) {
            let icon = match &e.icon {
                Some(s) => Some(s.clone()),
                None => None,
            };
            let item = Item { name: n.clone(), action: Action::Exec(c.clone()), icon };
            let ghost before = r@;
            r.push(item);
            assert(items_view(r@) == items_view(before).push(item@));
        }
        i = i + 1;
    }
    assert(es.take(entries.len() as int) == es);
    r
}

/// Reads the items that an item source printed as JSON.
pub fn parse_items_json_output(output: &str) -> (r: Result<Vec<Item>, ItemsJsonError>)
    ensures
        match json_document(output@) {
            JsonDocumentView::Malformed => r == Err::<Vec<Item>, ItemsJsonError>(
                ItemsJsonError::Malformed,
            ),
            JsonDocumentView::NotArray => r == Err::<Vec<Item>, ItemsJsonError>(
                ItemsJsonError::NotArray,
            ),
            JsonDocumentView::Array(es) => r matches Ok(items) && items_view(items@) == json_items(
                es,
            ),
        },
{
    match read_json(output) {
        JsonDocument::Malformed => Err(ItemsJsonError::Malformed),
        JsonDocument::NotArray => Err(ItemsJsonError::NotArray),
        JsonDocument::Array(entries) => Ok(items_from_json(&entries)),
    }
}

/// Where the items of an `ItemsJSON:` source come from.
#[derive(Debug)]
pub enum ItemsSource {
    /// The installed applications (`applist()`), without icons on request
    /// (`applist(noIcons)`).
    Applist { no_icons: bool },
    /// What this command line prints.
    Command(Vec<String>),
    /// A command line that is empty or ends inside quotes.
    Invalid,
}

pub enum ItemsSourceView {
    Applist { no_icons: bool },
    Command(Seq<Seq<char>>),
    Invalid,
}

impl View for ItemsSource {
    type V = ItemsSourceView;

    open spec fn view(&self) -> ItemsSourceView {
        match self {
            ItemsSource::Applist { no_icons } => ItemsSourceView::Applist { no_icons: *no_icons },
            ItemsSource::Command(a) => ItemsSourceView::Command(a@.map_values(|x: String| x@)),
            ItemsSource::Invalid => ItemsSourceView::Invalid,
        }
    }
}

pub open spec fn items_source_of(source: Seq<char>) -> ItemsSourceView {
    if source == "applist()"@ {
        ItemsSourceView::Applist { no_icons: false }
    } else if source == "applist(noIcons)"@ {
        ItemsSourceView::Applist { no_icons: true }
    } else {
        match split_args(source) {
            Some(a) => if a.len() > 0 {
                ItemsSourceView::Command(a)
            } else {
                ItemsSourceView::Invalid
            },
            None => ItemsSourceView::Invalid,
        }
    }
}

/// A source other than `applist()` and `applist(noIcons)` whose command
/// line splits into some arguments is that command, with exactly those
/// arguments; one word is enough.
pub proof fn lemma_command_source(source: Seq<char>, args: Seq<Seq<char>>)
    requires
        source != "applist()"@,
        source != "applist(noIcons)"@,
        split_args(source) == Some(args),
        args.len() > 0,
    ensures
        items_source_of(source) == ItemsSourceView::Command(args),
{
}

/// A single plain word (other than the two `applist` forms) is a command
/// run without arguments.
pub proof fn lemma_single_word_source(w: Seq<char>)
    requires
        is_plain_word(w),
        w != "applist()"@,
        w != "applist(noIcons)"@,
    ensures
        items_source_of(w) == ItemsSourceView::Command(seq![w]),
{
    lemma_plain_command_splits_into_words(w);
    assert(is_word(w));
    lemma_words_of_join(seq![w]);
    assert(join(seq![w], seq![' ']) == w);
    assert(words(w) == seq![w]);
}

/// Where the items of an `ItemsJSON:` source come from.
pub fn items_source(source: &str) -> (r: ItemsSource)
    ensures
        r@ == items_source_of(source@),
{
    let s = chars_of(source);
    if is_text(&s, "applist()") {
        return ItemsSource::Applist { no_icons: false };
    }
    if is_text(&s, "applist(noIcons)") {
        return ItemsSource::Applist { no_icons: true };
    }
    match split_command(source) {
        Some(a) => if a.len() > 0 {
            ItemsSource::Command(a)
        } else {
            ItemsSource::Invalid
        },
        None => ItemsSource::Invalid,
    }
}

} // verus!
