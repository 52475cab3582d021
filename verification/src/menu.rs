//! Reading a menu file: its `Config:`, `Functions:`, `Items:`, `ItemsJSON:`
//! and `No-result-found:` blocks, and its named `*section:`s.

use vstd::prelude::*;
use crate::model::{
    Action, ActionView, Config, ConfigView, Document, Entry, EntryView, Item, ItemView,
    default_config, entries_view, items_view,
};
use crate::syntax::{
    call_arg, call_function, define_function, exec_argument, function_call, function_definition,
    key_value, lemma_exec_and_submenu, lemma_key_value, setting_text, setting_value,
    split_key_value, submenu_argument, unquote, unquoted,
};
use crate::text::{
    append, chars_of, is_text, join, join_chars, lines, lines_of, replace, replace_chars,
    string_of, trim, trim_chars,
};

verus! {

/// The block of a menu file that a line belongs to.
#[derive(Clone, Copy, Debug)]
pub enum Block {
    Outside,
    Config,
    Functions,
    Items,
    ItemsJson,
    NoResultFound,
}

// ---------------------------------------------------------------------------
// Specification of the reading
// ---------------------------------------------------------------------------

/// What has been read of a menu file so far.
pub struct ReadState {
    pub config: ConfigView,
    pub entries: Seq<EntryView>,
    /// Function definitions: name, parameter, command.
    pub functions: Seq<(Seq<char>, Seq<char>, Seq<char>)>,
    pub block: Block,
    /// A `*section:` line has been met: the rest belongs to sections.
    pub stopped: bool,
}

pub open spec fn initial_state() -> ReadState {
    ReadState {
        config: default_config(),
        entries: seq![],
        functions: seq![],
        block: Block::Outside,
        stopped: false,
    }
}

/// `*name:`, a (trimmed) line that starts a section.
pub open spec fn is_section_header(line: Seq<char>) -> bool {
    line.len() >= 1 && line[0] == '*' && line.last() == ':'
}

/// The block that a (trimmed) block header line opens.
pub open spec fn block_header(line: Seq<char>) -> Option<Block> {
    if line == "Config:"@ {
        Some(Block::Config)
    } else if line == "Items:"@ {
        Some(Block::Items)
    } else if line == "Functions:"@ {
        Some(Block::Functions)
    } else if line == "ItemsJSON:"@ {
        Some(Block::ItemsJson)
    } else if line == "No-result-found:"@ {
        Some(Block::NoResultFound)
    } else {
        None
    }
}

/// The settings after a `"key" = value` line of a `Config:` block, `value`
/// being the line's value without its trailing comment.
pub open spec fn with_setting(c: ConfigView, key: Seq<char>, value: Seq<char>) -> ConfigView {
    let text = match unquoted(value) {
        Some(u) => u,
        None => value,
    };
    if key == "menu"@ {
        ConfigView { menu: text, ..c }
    } else if key == "title"@ {
        ConfigView { title: text, ..c }
    } else if key == "backtext"@ {
        ConfigView { backtext: text, ..c }
    } else if key == "back"@ {
        if unquoted(value) == Some("false"@) || trim(value) == "false"@ {
            ConfigView { back: false, ..c }
        } else {
            c
        }
    } else {
        c
    }
}

/// The parameter and command of the function last defined under `name`.
pub open spec fn lookup(fs: Seq<(Seq<char>, Seq<char>, Seq<char>)>, name: Seq<char>) -> Option<
    (Seq<char>, Seq<char>),
>
    decreases fs.len(),
{
    if fs.len() == 0 {
        None
    } else if fs.last().0 == name {
        Some((fs.last().1, fs.last().2))
    } else {
        lookup(fs.drop_last(), name)
    }
}

/// `${param}`, the placeholder of a function's parameter in its command.
pub open spec fn placeholder(param: Seq<char>) -> Seq<char> {
    "${"@ + param + seq!['}']
}

/// The action of an item's value: `exec(..)`, `submenu(..)`, or a call of a
/// defined function, whose command gets the argument for its placeholder.
pub open spec fn action_of(value: Seq<char>, fs: Seq<(Seq<char>, Seq<char>, Seq<char>)>) -> Option<
    ActionView,
> {
    match exec_argument(value) {
        Some(c) => Some(ActionView::Exec(c)),
        None => match submenu_argument(value) {
            Some(s) => Some(ActionView::Submenu(s)),
            None => match function_call(value) {
                None => None,
                Some((name, arg)) => match lookup(fs, name) {
                    None => None,
                    Some((param, cmd)) => Some(ActionView::Exec(replace(cmd, placeholder(param), arg))),
                },
            },
        },
    }
}

/// The effect of a (trimmed) line that is neither blank, a comment nor a
/// header, in the current block.
pub open spec fn read_block_line(st: ReadState, line: Seq<char>) -> ReadState {
    match st.block {
        Block::Config => match key_value(line) {
            Some((k, v)) => ReadState { config: with_setting(st.config, k, setting_value(v)), ..st },
            None => st,
        },
        Block::Functions => match function_definition(line) {
            Some((n, a, body)) => match exec_argument(body) {
                Some(cmd) => ReadState { functions: st.functions.push((n, a, cmd)), ..st },
                None => st,
            },
            None => st,
        },
        Block::Items => match key_value(line) {
            Some((k, v)) => match action_of(v, st.functions) {
                Some(a) => ReadState {
                    entries: st.entries.push(
                        EntryView::Item(ItemView { name: k, action: a, icon: None }),
                    ),
                    ..st
                },
                None => st,
            },
            None => st,
        },
        Block::ItemsJson => if line == "applist()"@ || line == "applist(noIcons)"@ {
            ReadState { entries: st.entries.push(EntryView::Json(line)), ..st }
        } else {
            match exec_argument(line) {
                Some(c) => ReadState { entries: st.entries.push(EntryView::Json(c)), ..st },
                None => st,
            }
        },
        Block::NoResultFound => match key_value(line) {
            Some((l, v)) => match exec_argument(v) {
                Some(c) => ReadState {
                    config: ConfigView { no_result: Some((l, c)), ..st.config },
                    ..st
                },
                None => st,
            },
            None => st,
        },
        Block::Outside => st,
    }
}

/// The effect of one raw line of a menu file.
pub open spec fn read_line(st: ReadState, raw: Seq<char>) -> ReadState {
    let line = trim(raw);
    if st.stopped || line.len() == 0 || line[0] == '#' {
        st
    } else if is_section_header(line) {
        ReadState { stopped: true, ..st }
    } else {
        match block_header(line) {
            Some(b) => ReadState { block: b, ..st },
            None => read_block_line(st, line),
        }
    }
}

/// What a menu file with the given lines holds.
pub open spec fn read_lines(ls: Seq<Seq<char>>) -> ReadState
    decreases ls.len(),
{
    if ls.len() == 0 {
        initial_state()
    } else {
        read_line(read_lines(ls.drop_last()), ls.last())
    }
}

/// What the menu file `content` holds.
pub open spec fn read_text(content: Seq<char>) -> ReadState {
    read_lines(lines(content))
}

/// The items of an item list in which every item source gives the
/// corresponding list of `outputs`, in order.
pub open spec fn expand(entries: Seq<EntryView>, outputs: Seq<Seq<ItemView>>) -> Seq<ItemView>
    decreases entries.len(),
{
    if entries.len() == 0 {
        seq![]
    } else {
        match entries.last() {
            EntryView::Item(i) => expand(entries.drop_last(), outputs).push(i),
            EntryView::Json(_) => expand(entries.drop_last(), outputs.drop_last()) + outputs.last(),
        }
    }
}

/// The number of item sources in an item list.
pub open spec fn source_count(entries: Seq<EntryView>) -> nat
    decreases entries.len(),
{
    if entries.len() == 0 {
        0
    } else {
        match entries.last() {
            EntryView::Item(_) => source_count(entries.drop_last()),
            EntryView::Json(_) => source_count(entries.drop_last()) + 1,
        }
    }
}

/// The items written out in an item list, without its item sources.
pub open spec fn written_items(entries: Seq<EntryView>) -> Seq<ItemView>
    decreases entries.len(),
{
    if entries.len() == 0 {
        seq![]
    } else {
        match entries.last() {
            EntryView::Item(i) => written_items(entries.drop_last()).push(i),
            EntryView::Json(_) => written_items(entries.drop_last()),
        }
    }
}

/// The name of the section that a (trimmed) line `*name:` starts.
pub open spec fn section_name(line: Seq<char>) -> Option<Seq<char>> {
    if line.len() >= 2 && line[0] == '*' && line.last() == ':' {
        Some(line.subrange(1, line.len() - 1))
    } else {
        None
    }
}

/// The raw lines of the sections named `name` among `ls`, and whether the
/// last line read lies in such a section.
pub open spec fn section_scan(ls: Seq<Seq<char>>, name: Seq<char>) -> (Seq<Seq<char>>, bool)
    decreases ls.len(),
{
    if ls.len() == 0 {
        (seq![], false)
    } else {
        let (kept, inside) = section_scan(ls.drop_last(), name);
        match section_name(trim(ls.last())) {
            Some(n) => (kept, n == name),
            None => if inside {
                (kept.push(ls.last()), true)
            } else {
                (kept, false)
            },
        }
    }
}

/// The text of the sections named `name` in `content`: their lines,
/// joined with `'\n'`.
pub open spec fn section_text(content: Seq<char>, name: Seq<char>) -> Seq<char> {
    join(section_scan(lines(content), name).0, seq!['\n'])
}

// ---------------------------------------------------------------------------
// Lemmas
// ---------------------------------------------------------------------------

/// Once a section header is read, nothing after it changes what was read.
proof fn lemma_stopped(ls: Seq<Seq<char>>, i: int, j: int)
    requires
        0 <= i <= j <= ls.len(),
        read_lines(ls.take(i)).stopped,
    ensures
        read_lines(ls.take(j)) == read_lines(ls.take(i)),
    decreases j - i,
{
    if j > i {
        lemma_stopped(ls, i, j - 1);
        assert(ls.take(j).drop_last() == ls.take(j - 1));
    }
}

/// With no items coming from any item source, an item list gives exactly
/// its written items: `parse` is `parse_document` with every `ItemsJSON:`
/// source yielding nothing.
pub proof fn lemma_expand_nothing(entries: Seq<EntryView>, outputs: Seq<Seq<ItemView>>)
    requires
        outputs.len() == source_count(entries),
        forall|k: int| 0 <= k < outputs.len() ==> (#[trigger] outputs[k]).len() == 0,
    ensures
        expand(entries, outputs) == written_items(entries),
    decreases entries.len(),
{
    if entries.len() > 0 {
        match entries.last() {
            EntryView::Item(_) => lemma_expand_nothing(entries.drop_last(), outputs),
            EntryView::Json(_) => {
                lemma_expand_nothing(entries.drop_last(), outputs.drop_last());
                assert(outputs.last().len() == 0);
                assert(expand(entries, outputs) == expand(entries.drop_last(), outputs.drop_last()));
            },
        }
    }
}

/// Whether every item in an item list is a command or a submenu without
/// an icon.
pub open spec fn plain_items(entries: Seq<EntryView>) -> bool {
    forall|i: int|
        0 <= i < entries.len() ==> (#[trigger] entries[i] matches EntryView::Item(it) ==> (
        it.action !is Back && it.icon is None))
}

/// The items that a menu file writes out run a command or open a
/// submenu and carry no icon: only a session adds the back item.
pub proof fn lemma_written_items_are_plain(ls: Seq<Seq<char>>)
    ensures
        plain_items(read_lines(ls).entries),
    decreases ls.len(),
{
    if ls.len() > 0 {
        lemma_written_items_are_plain(ls.drop_last());
        let st = read_lines(ls.drop_last());
        let next = read_lines(ls);
        assert forall|i: int| 0 <= i < next.entries.len() implies (#[trigger] next.entries[i] matches EntryView::Item(
            it,
        ) ==> (it.action !is Back && it.icon is None)) by {
            if i < st.entries.len() {
                assert(next.entries[i] == st.entries[i]);
            }
        }
    }
}

/// A `*name:` line ends what a menu file holds outside its sections:
/// the lines after it change neither its settings nor its items.
pub proof fn lemma_section_header_ends_reading(
    ls: Seq<Seq<char>>,
    header: Seq<char>,
    rest: Seq<Seq<char>>,
)
    requires
        is_section_header(trim(header)),
    ensures
        read_lines(ls + seq![header] + rest).config == read_lines(ls).config,
        read_lines(ls + seq![header] + rest).entries == read_lines(ls).entries,
{
    let all = ls + seq![header] + rest;
    let n: int = ls.len() as int;
    assert(all.take(n + 1).drop_last() == ls);
    assert(all.take(n + 1).last() == header);
    assert(read_lines(all.take(n + 1)).stopped);
    lemma_stopped(all, n + 1, all.len() as int);
    assert(all.take(all.len() as int) == all);
}

/// A raw line that opens a `Config:` or a `No-result-found:` block.
pub open spec fn opens_settings(raw: Seq<char>) -> bool {
    ||| block_header(trim(raw)) == Some(Block::Config)
    ||| block_header(trim(raw)) == Some(Block::NoResultFound)
}

proof fn lemma_settings_untouched(ls: Seq<Seq<char>>)
    requires
        forall|i: int| 0 <= i < ls.len() ==> !opens_settings(#[trigger] ls[i]),
    ensures
        read_lines(ls).config == default_config(),
        read_lines(ls).block !is Config,
        read_lines(ls).block !is NoResultFound,
    decreases ls.len(),
{
    if ls.len() > 0 {
        assert(!opens_settings(ls[ls.len() - 1]));
        lemma_settings_untouched(ls.drop_last());
    }
}

/// A menu file whose main part opens no `Config:` and no
/// `No-result-found:` block has the default settings, whatever its
/// sections hold.
pub proof fn lemma_default_settings(ls: Seq<Seq<char>>, header: Seq<char>, rest: Seq<Seq<char>>)
    requires
        forall|i: int| 0 <= i < ls.len() ==> !opens_settings(#[trigger] ls[i]),
    ensures
        read_lines(ls).config == default_config(),
        is_section_header(trim(header)) ==> read_lines(ls + seq![header] + rest).config
            == default_config(),
{
    lemma_settings_untouched(ls);
    if is_section_header(trim(header)) {
        lemma_section_header_ends_reading(ls, header, rest);
    }
}

/// `"k" = head"t")`: an item line whose value is a call with a quoted
/// argument.
pub open spec fn call_line(k: Seq<char>, head: Seq<char>, t: Seq<char>) -> Seq<char> {
    seq!['"'] + k + seq!['"', ' ', '=', ' '] + head + seq!['"'] + t + seq!['"', ')']
}

/// In an `Items:` block, `"k" = exec("c")` adds the item `k` running `c`
/// as written, and `"k" = submenu("s")` the item `k` opening `s`; the line
/// changes nothing else.
pub proof fn lemma_item_lines(st: ReadState, k: Seq<char>, t: Seq<char>)
    requires
        !st.stopped,
        st.block is Items,
        forall|i: int| 0 <= i < k.len() ==> #[trigger] k[i] != '=',
    ensures
        read_line(st, call_line(k, "exec("@, t)) == (ReadState {
            entries: st.entries.push(
                EntryView::Item(ItemView { name: k, action: ActionView::Exec(t), icon: None }),
            ),
            ..st
        }),
        read_line(st, call_line(k, "submenu("@, t)) == (ReadState {
            entries: st.entries.push(
                EntryView::Item(ItemView { name: k, action: ActionView::Submenu(t), icon: None }),
            ),
            ..st
        }),
{
    reveal_strlit("exec(");
    reveal_strlit("submenu(");
    reveal_strlit("Config:");
    reveal_strlit("Items:");
    reveal_strlit("Functions:");
    reveal_strlit("ItemsJSON:");
    reveal_strlit("No-result-found:");
    lemma_exec_and_submenu(t);
    lemma_item_line(st, k, "exec("@, t);
    lemma_item_line(st, k, "submenu("@, t);
}

proof fn lemma_item_line(st: ReadState, k: Seq<char>, head: Seq<char>, t: Seq<char>)
    requires
        !st.stopped,
        st.block is Items,
        forall|i: int| 0 <= i < k.len() ==> #[trigger] k[i] != '=',
        head.len() > 0,
        !crate::text::is_space(head[0]),
        head[0] != '"',
        "Config:"@[0] != '"' && "Items:"@[0] != '"' && "Functions:"@[0] != '"' && "ItemsJSON:"@[0]
            != '"' && "No-result-found:"@[0] != '"',
    ensures
        key_value(trim(call_line(k, head, t))) == Some(
            (k, head + seq!['"'] + t + seq!['"', ')']),
        ),
        read_line(st, call_line(k, head, t)) == read_block_line(st, call_line(k, head, t)),
{
    let x = head + seq!['"'] + t + seq!['"', ')'];
    let raw = call_line(k, head, t);
    assert(raw[0] == '"');
    assert(raw.last() == ')');
    assert(crate::text::trim_start(raw) == raw);
    assert(crate::text::trim_end(raw) == raw);
    assert(trim(raw) == raw);
    let sp = seq![' '];
    let v = seq![' '] + x;
    assert(raw == seq!['"'] + k + seq!['"'] + sp + seq!['='] + v);
    lemma_key_value(k, sp, v);
    assert(v.drop_first() == x);
    assert(x[0] == head[0]);
    assert(crate::text::trim_start(v) == crate::text::trim_start(x));
    assert(crate::text::trim_start(x) == x);
    assert(x.last() == ')');
    assert(crate::text::trim_end(x) == x);
    assert(trim(v) == x);
    assert(raw != "Config:"@);
    assert(raw != "Items:"@);
    assert(raw != "Functions:"@);
    assert(raw != "ItemsJSON:"@);
    assert(raw != "No-result-found:"@);
}

proof fn lemma_section_body(pre: Seq<Seq<char>>, body: Seq<Seq<char>>, name: Seq<char>)
    requires
        forall|i: int| 0 <= i < body.len() ==> section_name(trim(#[trigger] body[i])) is None,
    ensures
        section_scan(pre + body, name) == (if section_scan(pre, name).1 {
            (section_scan(pre, name).0 + body, true)
        } else {
            section_scan(pre, name)
        }),
    decreases body.len(),
{
    if body.len() == 0 {
        assert(pre + body == pre);
        assert(section_scan(pre, name).0 + body == section_scan(pre, name).0);
    } else {
        let b = body.drop_last();
        assert forall|i: int| 0 <= i < b.len() implies section_name(trim(#[trigger] b[i])) is None by {
            assert(b[i] == body[i]);
        }
        lemma_section_body(pre, b, name);
        assert((pre + body).drop_last() == pre + b);
        assert((pre + body).last() == body[body.len() - 1]);
        assert(section_scan(pre, name).0 + b.push(body.last()) == section_scan(pre, name).0 + body);
    }
}

/// The lines after a `*name:` line, up to the next section line, belong to
/// section `name`; after a line starting another section they belong to
/// none of `name`.
pub proof fn lemma_section_lines(
    pre: Seq<Seq<char>>,
    header: Seq<char>,
    body: Seq<Seq<char>>,
    name: Seq<char>,
)
    requires
        section_name(trim(header)) is Some,
        forall|i: int| 0 <= i < body.len() ==> section_name(trim(#[trigger] body[i])) is None,
    ensures
        section_name(trim(header)) == Some(name) ==> section_scan(pre.push(header) + body, name).0
            == section_scan(pre, name).0 + body,
        section_name(trim(header)) != Some(name) ==> section_scan(pre.push(header) + body, name).0
            == section_scan(pre, name).0,
{
    let p = pre.push(header);
    assert(p.drop_last() == pre);
    assert(p.last() == header);
    lemma_section_body(p, body, name);
}

/// The `menu`, `title` and `backtext` settings are read alike: a quoted
/// value without its quotes, any other value as written.
pub proof fn lemma_text_settings(c: ConfigView, v: Seq<char>)
    ensures
        with_setting(c, "menu"@, v).menu == with_setting(c, "title"@, v).title,
        with_setting(c, "title"@, v).title == with_setting(c, "backtext"@, v).backtext,
        unquoted(v) is None ==> with_setting(c, "menu"@, v).menu == v,
        unquoted(v) matches Some(u) ==> with_setting(c, "menu"@, v).menu == u,
{
    reveal_strlit("menu");
    reveal_strlit("title");
    reveal_strlit("backtext");
    assert("title"@.len() != "menu"@.len());
    assert("backtext"@.len() != "menu"@.len());
    assert("backtext"@.len() != "title"@.len());
}

/// A raw line that turns the back item off: in a `Config:` block, a
/// `"back"` setting whose value (without its comment) is `false` or
/// `"false"`.
pub open spec fn turns_back_off(st: ReadState, raw: Seq<char>) -> bool {
    let line = trim(raw);
    &&& !st.stopped
    &&& line.len() > 0
    &&& line[0] != '#'
    &&& !is_section_header(line)
    &&& block_header(line) is None
    &&& st.block is Config
    &&& key_value(line) matches Some((k, v)) && k == "back"@ && (unquoted(setting_value(v)) == Some(
        "false"@,
    ) || trim(setting_value(v)) == "false"@)
}

proof fn lemma_back_step(st: ReadState, raw: Seq<char>)
    ensures
        read_line(st, raw).config.back == (st.config.back && !turns_back_off(st, raw)),
{
    reveal_strlit("back");
    reveal_strlit("menu");
    reveal_strlit("title");
    reveal_strlit("backtext");
    assert("back"@[0] != "menu"@[0]);
    assert("back"@.len() != "title"@.len());
    assert("back"@.len() != "backtext"@.len());
    let line = trim(raw);
    if !st.stopped && line.len() > 0 && line[0] != '#' && !is_section_header(line) && block_header(
        line,
    ) is None && st.block is Config {
        if let Some((k, v)) = key_value(line) {
            let c = with_setting(st.config, k, setting_value(v));
            if k == "back"@ {
                assert(k != "menu"@);
                assert(k != "title"@);
                assert(k != "backtext"@);
            }
            assert(c.back == (st.config.back && !turns_back_off(st, raw)));
        }
    }
}

/// The back item is off exactly when some line turns it off: no later
/// setting turns it on again.
pub proof fn lemma_back_off(ls: Seq<Seq<char>>)
    ensures
        !read_lines(ls).config.back <==> exists|i: int|
            0 <= i < ls.len() && #[trigger] turns_back_off(read_lines(ls.take(i)), ls[i]),
    decreases ls.len(),
{
    if ls.len() > 0 {
        let p = ls.drop_last();
        let n = p.len() as int;
        lemma_back_off(p);
        lemma_back_step(read_lines(p), ls.last());
        assert(ls.take(n) == p);
        if !read_lines(ls).config.back {
            if !read_lines(p).config.back {
                let i = choose|i: int|
                    0 <= i < p.len() && #[trigger] turns_back_off(read_lines(p.take(i)), p[i]);
                assert(ls.take(i) == p.take(i));
                assert(turns_back_off(read_lines(ls.take(i)), ls[i]));
            } else {
                assert(turns_back_off(read_lines(ls.take(n)), ls[n]));
            }
        }
        if exists|i: int| 0 <= i < ls.len() && #[trigger] turns_back_off(read_lines(ls.take(i)), ls[i]) {
            let i = choose|i: int|
                0 <= i < ls.len() && #[trigger] turns_back_off(read_lines(ls.take(i)), ls[i]);
            if i < n {
                assert(ls.take(i) == p.take(i));
                assert(turns_back_off(read_lines(p.take(i)), p[i]));
            }
        }
    }
}

/// The item that a raw line adds: an `Items:` line whose value is a
/// command, a submenu or a call of a function defined before it.
pub open spec fn line_item(st: ReadState, raw: Seq<char>) -> Option<ItemView> {
    let line = trim(raw);
    if !st.stopped && line.len() > 0 && line[0] != '#' && !is_section_header(line) && block_header(
        line,
    ) is None && st.block is Items {
        match key_value(line) {
            Some((k, v)) => match action_of(v, st.functions) {
                Some(a) => Some(ItemView { name: k, action: a, icon: None }),
                None => None,
            },
            None => None,
        }
    } else {
        None
    }
}

/// The items that the lines add, one line at a time.
pub open spec fn items_by_line(ls: Seq<Seq<char>>) -> Seq<ItemView>
    decreases ls.len(),
{
    if ls.len() == 0 {
        seq![]
    } else {
        let p = items_by_line(ls.drop_last());
        match line_item(read_lines(ls.drop_last()), ls.last()) {
            Some(it) => p.push(it),
            None => p,
        }
    }
}

/// The written items of a menu file are, in order, exactly the items that
/// its `Items:` lines add.
pub proof fn lemma_written_items_by_line(ls: Seq<Seq<char>>)
    ensures
        written_items(read_lines(ls).entries) == items_by_line(ls),
    decreases ls.len(),
{
    if ls.len() > 0 {
        lemma_written_items_by_line(ls.drop_last());
        let st = read_lines(ls.drop_last());
        let next = read_lines(ls);
        if next.entries.len() > st.entries.len() {
            assert(next.entries.drop_last() == st.entries);
        } else {
            assert(next.entries == st.entries);
        }
    }
}

/// A blank line or a comment.
pub open spec fn is_blank_or_comment(raw: Seq<char>) -> bool {
    let line = trim(raw);
    line.len() == 0 || line[0] == '#'
}

proof fn lemma_same_state_extends(a: Seq<Seq<char>>, b: Seq<Seq<char>>, c: Seq<Seq<char>>)
    requires
        read_lines(a) == read_lines(b),
    ensures
        read_lines(a + c) == read_lines(b + c),
    decreases c.len(),
{
    if c.len() > 0 {
        lemma_same_state_extends(a, b, c.drop_last());
        assert((a + c).drop_last() == a + c.drop_last());
        assert((b + c).drop_last() == b + c.drop_last());
    } else {
        assert(a + c == a);
        assert(b + c == b);
    }
}

/// Inserting a blank line or a comment anywhere changes nothing that is
/// read.
pub proof fn lemma_blank_lines_change_nothing(ls: Seq<Seq<char>>, k: int, raw: Seq<char>)
    requires
        0 <= k <= ls.len(),
        is_blank_or_comment(raw),
    ensures
        read_lines(ls.insert(k, raw)) == read_lines(ls),
{
    let front = ls.take(k);
    let back = ls.skip(k);
    assert(front.push(raw).drop_last() == front);
    assert(read_lines(front.push(raw)) == read_lines(front));
    lemma_same_state_extends(front.push(raw), front, back);
    assert(ls.insert(k, raw) == front.push(raw) + back);
    assert(ls == front + back);
}

// ---------------------------------------------------------------------------
// The reader
// ---------------------------------------------------------------------------

struct Reader {
    config: Config,
    entries: Vec<Entry>,
    functions: Vec<(Vec<char>, Vec<char>, Vec<char>)>,
    block: Block,
    stopped: bool,
}

pub open spec fn functions_view(fs: Seq<(Vec<char>, Vec<char>, Vec<char>)>) -> Seq<
    (Seq<char>, Seq<char>, Seq<char>),
> {
    fs.map_values(|f: (Vec<char>, Vec<char>, Vec<char>)| (f.0@, f.1@, f.2@))
}

pub open spec fn opt_action_view(a: Option<Action>) -> Option<ActionView> {
    match a {
        Some(a) => Some(a@),
        None => None,
    }
}

impl Reader {
    spec fn state(&self) -> ReadState {
        ReadState {
            config: self.config@,
            entries: entries_view(self.entries@),
            functions: functions_view(self.functions@),
            block: self.block,
            stopped: self.stopped,
        }
    }

    fn new() -> (r: Reader)
        ensures
            r.state() == initial_state(),
    {
        let r = Reader {
            config: Config::default(),
            entries: Vec::new(),
            functions: Vec::new(),
            block: Block::Outside,
            stopped: false,
        };
        assert(entries_view(r.entries@) == Seq::<EntryView>::empty());
        assert(functions_view(r.functions@) == Seq::<(Seq<char>, Seq<char>, Seq<char>)>::empty());
        r
    }

    fn push_entry(&mut self, e: Entry)
        ensures
            final(self).state() == (ReadState {
                entries: old(self).state().entries.push(e@),
                ..old(self).state()
            }),
    {
        self.entries.push(e);
        assert(entries_view(self.entries@) == entries_view(old(self).entries@).push(e@));
    }

    fn read_block_line(&mut self, line: &Vec<char>)
        ensures
            final(self).state() == read_block_line(old(self).state(), line@),
    {
        match self.block {
            Block::Config => {
                if let Some((k, v)) = split_key_value(line) {
                    apply_setting(&mut self.config, &k, &setting_text(&v));
                }
            },
            Block::Functions => {
                if let Some((n, a, body)) = define_function(line) {
                    if let Some(cmd) = call_arg(&body, "exec(") {
                        let ghost old_fs = self.functions@;
                        self.functions.push((n, a, cmd));
                        assert(functions_view(self.functions@) == functions_view(old_fs).push(
                            (n@, a@, cmd@),
                        ));
                    }
                }
            },
            Block::Items => {
                if let Some((k, v)) = split_key_value(line) {
                    if let Some(action) = action_for(&v, &self.functions) {
                        self.push_entry(Entry::Item(Item { name: string_of(&k), action, icon: None }));
                    }
                }
            },
            Block::ItemsJson => {
                if is_text(line, "applist()") || is_text(line, "applist(noIcons)") {
                    self.push_entry(Entry::Json(string_of(line)));
                } else if let Some(c) = call_arg(line, "exec(") {
                    self.push_entry(Entry::Json(string_of(&c)));
                }
            },
            Block::NoResultFound => {
                if let Some((l, v)) = split_key_value(line) {
                    if let Some(c) = call_arg(&v, "exec(") {
                        self.config.no_result = Some((string_of(&l), string_of(&c)));
                    }
                }
            },
            Block::Outside => {},
        }
    }

    fn read_line(&mut self, raw: &Vec<char>)
        ensures
            final(self).state() == read_line(old(self).state(), raw@),
    {
        let line = trim_chars(raw);
        if self.stopped || line.len() == 0 || line[0] == '#' {
            return;
        }
        if line[0] == '*' && line[line.len() - 1] == ':' {
            self.stopped = true;
            return;
        }
        if is_text(&line, "Config:") {
            self.block = Block::Config;
        } else if is_text(&line, "Items:") {
            self.block = Block::Items;
        } else if is_text(&line, "Functions:") {
            self.block = Block::Functions;
        } else if is_text(&line, "ItemsJSON:") {
            self.block = Block::ItemsJson;
        } else if is_text(&line, "No-result-found:") {
            self.block = Block::NoResultFound;
        } else {
            self.read_block_line(&line);
        }
    }
}

fn apply_setting(config: &mut Config, key: &Vec<char>, value: &Vec<char>)
    ensures
        final(config)@ == with_setting(old(config)@, key@, value@),
{
    let u = unquote(&value);
    let text = match &u {
        Some(t) => t,
        None => &value,
    };
    if is_text(key, "menu") {
        config.menu = string_of(text);
    } else if is_text(key, "title") {
        config.title = string_of(text);
    } else if is_text(key, "backtext") {
        config.backtext = string_of(text);
    } else if is_text(key, "back") {
        let off = match &u {
            Some(t) => is_text(t, "false"),
            None => false,
        };
        if off || is_text(&trim_chars(&value), "false") {
            config.back = false;
        }
    }
}

/// The position of the function last defined under `name`.
fn find_function(fs: &Vec<(Vec<char>, Vec<char>, Vec<char>)>, name: &Vec<char>) -> (r: Option<usize>)
    ensures
        r matches Some(k) ==> k < fs.len() && lookup(functions_view(fs@), name@) == Some(
            (fs@[k as int].1@, fs@[k as int].2@),
        ),
        r is None ==> lookup(functions_view(fs@), name@) is None,
{
    let ghost all = functions_view(fs@);
    let mut i: usize = fs.len();
    assert(all.take(i as int) == all);
    while i > 0
        invariant
            i <= fs.len(),
            all == functions_view(fs@),
            lookup(all, name@) == lookup(all.take(i as int), name@),
        decreases i,
    {
        assert(all.take(i as int).drop_last() == all.take(i - 1));
        if crate::text::same(&fs[i - 1].0, name) {
            return Some(i - 1);
        }
        i = i - 1;
    }
    None
}

fn action_for(value: &Vec<char>, fs: &Vec<(Vec<char>, Vec<char>, Vec<char>)>) -> (r: Option<Action>)
    ensures
        opt_action_view(r) == action_of(value@, functions_view(fs@)),
{
    if let Some(c) = call_arg(value, "exec(") {
        return Some(Action::Exec(string_of(&c)));
    }
    if let Some(s) = call_arg(value, "submenu(") {
        return Some(Action::Submenu(string_of(&s)));
    }
    match call_function(value) {
        None => None,
        Some((name, arg)) => match find_function(fs, &name) {
            None => None,
            Some(k) => {
                let mut pat = chars_of("${");
                append(&mut pat, &fs[k].1);
                pat.push('}');
                assert(pat@ == placeholder(fs@[k as int].1@));
                Some(Action::Exec(string_of(&replace_chars(&fs[k].2, &pat, &arg))))
            },
        },
    }
}

// ---------------------------------------------------------------------------
// Public reading functions
// ---------------------------------------------------------------------------

/// Reads a menu file: its settings and its item list, item sources kept
/// where they stand.
pub fn parse_document(content: &str) -> (d: Document)
    ensures
        d.config@ == read_text(content@).config,
        entries_view(d.entries@) == read_text(content@).entries,
{
    let chars = chars_of(content);
    let ls = lines_of(&chars);
    let ghost all = lines(content@);
    assert(ls@.len() == all.len());
    let mut reader = Reader::new();
    let mut i: usize = 0;
    while i < ls.len() && !reader.stopped
        invariant
            i <= ls.len(),
            ls@.len() == all.len(),
            forall|k: int| 0 <= k < ls@.len() ==> #[trigger] ls@[k]@ == all[k],
            reader.state() == read_lines(all.take(i as int)),
        decreases ls.len() - i,
    {
        assert(all.take(i + 1).drop_last() == all.take(i as int));
        assert(all.take(i + 1).last() == ls@[i as int]@);
        reader.read_line(&ls[i]);
        i = i + 1;
    }
    proof {
        if i < ls.len() {
            lemma_stopped(all, i as int, all.len() as int);
        }
        assert(all.take(all.len() as int) == all);
    }
    Document { config: reader.config, entries: reader.entries }
}

/// A copy of an item.
pub fn copy_item(item: &Item) -> (r: Item)
    ensures
        r@ == item@,
{
    let action = match &item.action {
        Action::Exec(c) => Action::Exec(c.clone()),
        Action::Submenu(s) => Action::Submenu(s.clone()),
        Action::Back => Action::Back,
    };
    let icon = match &item.icon {
        Some(i) => Some(i.clone()),
        None => None,
    };
    Item { name: item.name.clone(), action, icon }
}

/// The views of lists of items.
pub open spec fn outputs_view(outputs: Seq<Vec<Item>>) -> Seq<Seq<ItemView>> {
    outputs.map_values(|v: Vec<Item>| items_view(v@))
}

/// The items of an item list, the `k`-th item source giving `outputs[k]`.
pub fn expand_entries(entries: &Vec<Entry>, outputs: &Vec<Vec<Item>>) -> (r: Vec<Item>)
    requires
        outputs@.len() == source_count(entries_view(entries@)),
    ensures
        items_view(r@) == expand(entries_view(entries@), outputs_view(outputs@)),
{
    let ghost es = entries_view(entries@);
    let ghost os = outputs_view(outputs@);
    let mut r: Vec<Item> = Vec::new();
    let mut i: usize = 0;
    let mut j: usize = 0;
    while i < entries.len()
        invariant
            i <= entries.len(),
            es == entries_view(entries@),
            os == outputs_view(outputs@),
            os.len() == source_count(es),
            j == source_count(es.take(i as int)),
            j <= os.len(),
            items_view(r@) == expand(es.take(i as int), os.take(j as int)),
        decreases entries.len() - i,
    {
        assert(es.take(i + 1).drop_last() == es.take(i as int));
        proof {
            lemma_count_prefix(es, i as int + 1);
        }
        match &entries[i] {
            Entry::Item(item) => {
                let ghost before = r@;
                r.push(copy_item(item));
                assert(items_view(r@) == items_view(before).push(item@));
            },
            Entry::Json(_) => {
                assert(es.take(i + 1).last() == es[i as int]);
                assert(j + 1 <= outputs.len());
                assert(os.take(j + 1).drop_last() == os.take(j as int));
                let out = &outputs[j];
                let mut k: usize = 0;
                let ghost before = items_view(r@);
                while k < out.len()
                    invariant
                        k <= out.len(),
                        items_view(r@) == before + items_view(out@).take(k as int),
                    decreases out.len() - k,
                {
                    let ghost prev = r@;
                    r.push(copy_item(&out[k]));
                    assert(items_view(r@) == items_view(prev).push(out@[k as int]@));
                    assert(items_view(out@).take(k + 1) == items_view(out@).take(k as int).push(
                        out@[k as int]@,
                    ));
                    k = k + 1;
                }
                assert(items_view(out@).take(out.len() as int) == items_view(out@));
                assert(os.take(j + 1).last() == items_view(out@));
                j = j + 1;
            },
        }
        i = i + 1;
    }
    assert(es.take(entries.len() as int) == es);
    assert(os.take(j as int) == os);
    r
}

/// The item sources of a prefix are no more than those of the whole list.
proof fn lemma_count_prefix(es: Seq<EntryView>, n: int)
    requires
        0 <= n <= es.len(),
    ensures
        source_count(es.take(n)) <= source_count(es),
    decreases es.len() - n,
{
    if n < es.len() {
        lemma_count_prefix(es, n + 1);
        assert(es.take(n + 1).drop_last() == es.take(n));
    } else {
        assert(es.take(n) == es);
    }
}

/// The items written out in an item list, without its item sources.
pub fn written_items_of(entries: &Vec<Entry>) -> (r: Vec<Item>)
    ensures
        items_view(r@) == written_items(entries_view(entries@)),
{
    let ghost es = entries_view(entries@);
    let mut r: Vec<Item> = Vec::new();
    let mut i: usize = 0;
    while i < entries.len()
        invariant
            i <= entries.len(),
            es == entries_view(entries@),
            items_view(r@) == written_items(es.take(i as int)),
        decreases entries.len() - i,
    {
        assert(es.take(i + 1).drop_last() == es.take(i as int));
        if let Entry::Item(item) = &entries[i] {
            let ghost before = r@;
            r.push(copy_item(item));
            assert(items_view(r@) == items_view(before).push(item@));
        }
        i = i + 1;
    }
    assert(es.take(entries.len() as int) == es);
    r
}

/// Reads a menu file: its settings and its written items (an `ItemsJSON:`
/// source contributes no item here; see `parse_document`).
pub fn parse(content: &str) -> (r: (Config, Vec<Item>))
    ensures
        r.0@ == read_text(content@).config,
        items_view(r.1@) == written_items(read_text(content@).entries),
{
    let d = parse_document(content);
    let items = written_items_of(&d.entries);
    (d.config, items)
}

/// The text of the sections named `name` in a menu file: their lines,
/// joined with newlines.
pub fn section_content(content: &str, name: &str) -> (r: String)
    ensures
        r@ == section_text(content@, name@),
{
    let chars = chars_of(content);
    let want = chars_of(name);
    let ls = lines_of(&chars);
    let ghost all = lines(content@);
    let mut kept: Vec<Vec<char>> = Vec::new();
    let mut inside = false;
    let mut i: usize = 0;
    while i < ls.len()
        invariant
            i <= ls.len(),
            ls@.len() == all.len(),
            want@ == name@,
            forall|k: int| 0 <= k < ls@.len() ==> #[trigger] ls@[k]@ == all[k],
            kept@.map_values(|p: Vec<char>| p@) == section_scan(all.take(i as int), name@).0,
            inside == section_scan(all.take(i as int), name@).1,
        decreases ls.len() - i,
    {
        assert(all.take(i + 1).drop_last() == all.take(i as int));
        assert(all.take(i + 1).last() == ls@[i as int]@);
        let line = trim_chars(&ls[i]);
        if line.len() >= 2 && line[0] == '*' && line[line.len() - 1] == ':' {
            let n = crate::text::slice_of(&line, 1, line.len() - 1);
            inside = crate::text::same(&n, &want);
        } else if inside {
            let ghost before = kept@;
            let copy = crate::text::slice_of(&ls[i], 0, ls[i].len());
            assert(copy@ == ls@[i as int]@);
            kept.push(copy);
            assert(kept@.map_values(|p: Vec<char>| p@) =~= before.map_values(|p: Vec<char>| p@).push(
                ls@[i as int]@,
            ));
        }
        i = i + 1;
    }
    assert(all.take(ls.len() as int) == all);
    let mut sep: Vec<char> = Vec::new();
    sep.push('\n');
    string_of(&join_chars(&kept, &sep))
}

/// Reads the sections named `name` of a menu file (`*name:` starts one).
pub fn parse_named_section(content: &str, name: &str) -> (r: (Config, Vec<Item>))
    ensures
        r.0@ == read_text(section_text(content@, name@)).config,
        items_view(r.1@) == written_items(read_text(section_text(content@, name@)).entries),
{
    let text = section_content(content, name);
    parse(text.as_str())
}

} // verus!
