//! The decisions of a menu session: the list shown, the launcher that
//! shows it, and what a choice leads to.

use vstd::prelude::*;
use crate::model::{Action, ActionView, Config, ConfigView, Item, ItemView, items_view};
use crate::text::{
    lemma_replace_absent, starts_with, chars_of, is_text, join, join_chars, replace, replace_chars, string_of, trim,
    trim_chars,
};

verus! {

/// The item that leaves a submenu.
pub open spec fn back_item(c: ConfigView) -> ItemView {
    ItemView { name: c.backtext, action: ActionView::Back, icon: None }
}

/// The items to show: a submenu (`add_back`) whose settings allow it gets
/// the back item first.
pub open spec fn shown_items(c: ConfigView, items: Seq<ItemView>, add_back: bool) -> Seq<ItemView> {
    if add_back && c.back {
        seq![back_item(c)] + items
    } else {
        items
    }
}

/// The items to show, the back item first in a submenu that allows it.
pub fn with_back_item(config: &Config, items: Vec<Item>, add_back: bool) -> (r: Vec<Item>)
    ensures
        items_view(r@) == shown_items(config@, items_view(items@), add_back),
{
    let mut items = items;
    if add_back && config.back {
        let ghost before = items@;
        items.insert(0, Item { name: config.backtext.clone(), action: Action::Back, icon: None });
        assert(items_view(items@) =~= seq![back_item(config@)] + items_view(before));
    }
    items
}

/// `k` is the first item named `name`.
pub open spec fn is_first_named(items: Seq<ItemView>, name: Seq<char>, k: int) -> bool {
    &&& 0 <= k < items.len()
    &&& items[k].name == name
    &&& forall|j: int| 0 <= j < k ==> items[j].name != name
}

/// What the menu does after a choice.
#[derive(Debug)]
pub enum Step {
    /// Run this command line, then leave the menu.
    Run(String),
    /// Show this section of the same file, then show this menu again.
    OpenSection(String),
    /// Show the menu file of this path (relative to this file's
    /// directory), then show this menu again.
    OpenFile(String),
    /// Leave the menu.
    Leave,
}

pub enum StepView {
    Run(Seq<char>),
    OpenSection(Seq<char>),
    OpenFile(Seq<char>),
    Leave,
}

impl View for Step {
    type V = StepView;

    open spec fn view(&self) -> StepView {
        match self {
            Step::Run(c) => StepView::Run(c@),
            Step::OpenSection(s) => StepView::OpenSection(s@),
            Step::OpenFile(f) => StepView::OpenFile(f@),
            Step::Leave => StepView::Leave,
        }
    }
}

/// What a choice leads to: the first item of that name acts; a choice that
/// names no item runs the no-result command with `${term}` replaced by the
/// choice, or leaves.
pub open spec fn step_for(c: ConfigView, items: Seq<ItemView>, choice: Seq<char>) -> StepView {
    if exists|k: int| is_first_named(items, choice, k) {
        let k: int = choose|k: int| is_first_named(items, choice, k);
        match items[k].action {
            ActionView::Exec(cmd) => StepView::Run(cmd),
            ActionView::Submenu(s) => if s.len() > 0 && s[0] == '*' {
                StepView::OpenSection(s.drop_first())
            } else {
                StepView::OpenFile(s)
            },
            ActionView::Back => StepView::Leave,
        }
    } else {
        match c.no_result {
            Some((_, cmd)) => StepView::Run(replace(cmd, "${term}"@, choice)),
            None => StepView::Leave,
        }
    }
}

proof fn lemma_first_named(items: Seq<ItemView>, name: Seq<char>, k: int)
    requires
        is_first_named(items, name, k),
    ensures
        (choose|j: int| is_first_named(items, name, j)) == k,
{
    let w: int = choose|j: int| is_first_named(items, name, j);
    assert(is_first_named(items, name, w));
    if w < k {
        assert(items[w].name != name);
    } else if k < w {
        assert(items[k].name != name);
    }
}

/// In a submenu that shows the back item, choosing its name leaves the
/// submenu, whatever the other items are called.
pub proof fn lemma_back_item_leaves(c: ConfigView, items: Seq<ItemView>)
    requires
        c.back,
    ensures
        step_for(c, shown_items(c, items, true), c.backtext) == StepView::Leave,
{
    let shown = shown_items(c, items, true);
    assert(shown[0] == back_item(c));
    assert(is_first_named(shown, c.backtext, 0));
    lemma_first_named(shown, c.backtext, 0);
}

proof fn lemma_first_exists(items: Seq<ItemView>, name: Seq<char>, k: int)
    requires
        0 <= k < items.len(),
        items[k].name == name,
    ensures
        exists|j: int| is_first_named(items, name, j),
    decreases items.len(),
{
    let p = items.drop_last();
    if exists|j: int| 0 <= j < p.len() && p[j].name == name {
        let j = choose|j: int| 0 <= j < p.len() && p[j].name == name;
        lemma_first_exists(p, name, j);
        let f = choose|f: int| is_first_named(p, name, f);
        assert(is_first_named(p, name, f));
        assert(items[f] == p[f]);
        assert forall|j: int| 0 <= j < f implies items[j].name != name by {
            assert(items[j] == p[j]);
        }
        assert(is_first_named(items, name, f));
    } else {
        assert forall|j: int| 0 <= j < k implies items[j].name != name by {
            assert(items[j] == p[j]);
        }
        assert(is_first_named(items, name, k));
    }
}

/// The first item of a name decides what choosing it does: items after it
/// change nothing.
pub proof fn lemma_first_item_decides(
    c: ConfigView,
    items: Seq<ItemView>,
    more: Seq<ItemView>,
    choice: Seq<char>,
    k: int,
)
    requires
        0 <= k < items.len(),
        items[k].name == choice,
    ensures
        step_for(c, items + more, choice) == step_for(c, items, choice),
{
    lemma_first_exists(items, choice, k);
    let f = choose|f: int| is_first_named(items, choice, f);
    let all = items + more;
    assert(all[f] == items[f]);
    assert forall|j: int| 0 <= j < f implies all[j].name != choice by {
        assert(all[j] == items[j]);
    }
    assert(is_first_named(all, choice, f));
    lemma_first_named(items, choice, f);
    lemma_first_named(all, choice, f);
}

/// Choosing the first item of a name acts on it: a command runs, a submenu
/// `*x` opens the section `x` of the same file, another submenu opens that
/// file, and the back item leaves.
pub proof fn lemma_chosen_item(c: ConfigView, items: Seq<ItemView>, choice: Seq<char>, k: int)
    requires
        is_first_named(items, choice, k),
    ensures
        items[k].action matches ActionView::Exec(cmd) ==> step_for(c, items, choice)
            == StepView::Run(cmd),
        items[k].action matches ActionView::Submenu(s) ==> (s.len() > 0 && s[0] == '*'
            ==> step_for(c, items, choice) == StepView::OpenSection(s.subrange(1, s.len() as int))),
        items[k].action matches ActionView::Submenu(s) ==> (!(s.len() > 0 && s[0] == '*')
            ==> step_for(c, items, choice) == StepView::OpenFile(s)),
        items[k].action is Back ==> step_for(c, items, choice) == StepView::Leave,
{
    lemma_first_named(items, choice, k);
    if let ActionView::Submenu(s) = items[k].action {
        assert(s.drop_first() == s.subrange(1, s.len() as int));
    }
}

/// A choice that names no item runs the no-result command with every
/// `${term}` replaced by the choice (a command without `${term}` runs as
/// written), or leaves when there is none.
pub proof fn lemma_unknown_choice(c: ConfigView, items: Seq<ItemView>, choice: Seq<char>)
    requires
        forall|j: int| 0 <= j < items.len() ==> (#[trigger] items[j]).name != choice,
    ensures
        c.no_result is None ==> step_for(c, items, choice) == StepView::Leave,
        c.no_result matches Some((l, cmd)) ==> step_for(c, items, choice) == StepView::Run(
            replace(cmd, "${term}"@, choice),
        ),
        c.no_result matches Some((l, cmd)) ==> (forall|i: int|
            0 <= i <= cmd.len() ==> !starts_with(#[trigger] cmd.skip(i), "${term}"@)) ==> step_for(
            c,
            items,
            choice,
        ) == StepView::Run(cmd),
{
    if let Some((l, cmd)) = c.no_result {
        if forall|i: int| 0 <= i <= cmd.len() ==> !starts_with(#[trigger] cmd.skip(i), "${term}"@) {
            lemma_replace_absent(cmd, "${term}"@, choice);
        }
    }
}

/// What a choice from the shown items leads to.
pub fn choose_step(config: &Config, items: &Vec<Item>, choice: &str) -> (r: Step)
    ensures
        r@ == step_for(config@, items_view(items@), choice@),
{
    let ghost iv = items_view(items@);
    let want = chars_of(choice);
    let mut i: usize = 0;
    while i < items.len()
        invariant
            i <= items.len(),
            iv == items_view(items@),
            want@ == choice@,
            forall|j: int| 0 <= j < i ==> iv[j].name != choice@,
        decreases items.len() - i,
    {
        let name = chars_of(items[i].name.as_str());
        if crate::text::same(&name, &want) {
            proof {
                assert(iv[i as int] == items@[i as int]@);
                assert(is_first_named(iv, choice@, i as int));
                lemma_first_named(iv, choice@, i as int);
            }
            return match &items[i].action {
                Action::Exec(cmd) => Step::Run(cmd.clone()),
                Action::Submenu(s) => {
                    let sc = chars_of(s.as_str());
                    if sc.len() > 0 && sc[0] == '*' {
                        let rest = crate::text::slice_of(&sc, 1, sc.len());
                        assert(rest@ == sc@.drop_first());
                        Step::OpenSection(string_of(&rest))
                    } else {
                        Step::OpenFile(s.clone())
                    }
                },
                Action::Back => Step::Leave,
            };
        }
        i = i + 1;
    }
    match &config.no_result {
        Some((_, cmd)) => {
            let pat = chars_of("${term}");
            proof {
                reveal_strlit("${term}");
            }
            let out = replace_chars(&chars_of(cmd.as_str()), &pat, &want);
            Step::Run(string_of(&out))
        },
        None => Step::Leave,
    }
}

/// A launcher to run: its program and arguments.
#[derive(Debug)]
pub struct Launch {
    pub program: String,
    pub args: Vec<String>,
}

/// The launcher that `menu` names (empty: rofi) with its arguments, the
/// prompt being `title` (empty: "menupp"); `Err` with the launcher's name
/// when it is none of rofi, fuzzel and wofi.
pub open spec fn launch_of(c: ConfigView) -> Result<(Seq<char>, Seq<Seq<char>>), Seq<char>> {
    let launcher = if c.menu.len() == 0 {
        "rofi"@
    } else {
        c.menu
    };
    let title = if c.title.len() == 0 {
        "menupp"@
    } else {
        c.title
    };
    if launcher == "rofi"@ {
        Ok(("rofi"@, seq!["-dmenu"@, "-i"@, "-p"@, title]))
    } else if launcher == "fuzzel"@ {
        Ok(("fuzzel"@, seq!["--dmenu"@]))
    } else if launcher == "wofi"@ {
        Ok(("wofi"@, seq!["--dmenu"@, "--prompt"@, title]))
    } else {
        Err(launcher)
    }
}

/// The prompt: the title, `menupp` when it is empty.
pub open spec fn prompt(c: ConfigView) -> Seq<char> {
    if c.title.len() == 0 {
        "menupp"@
    } else {
        c.title
    }
}

/// rofi (also when no launcher is named) and wofi both get the prompt as
/// their last argument, so that the default prompt does not depend on the
/// launcher; fuzzel gets `--dmenu` alone; any other name is refused.
pub proof fn lemma_launcher_prompt(c: ConfigView)
    ensures
        (c.menu.len() == 0 || c.menu == "rofi"@) ==> (launch_of(c) matches Ok((p, args)) && p
            == "rofi"@ && args.len() == 4 && args.last() == prompt(c)),
        c.menu == "wofi"@ ==> (launch_of(c) matches Ok((p, args)) && p == "wofi"@ && args.len()
            == 3 && args.last() == prompt(c)),
        c.menu == "fuzzel"@ ==> (launch_of(c) matches Ok((p, args)) && p == "fuzzel"@ && args
            == seq!["--dmenu"@]),
        c.menu.len() > 0 && c.menu != "rofi"@ && c.menu != "wofi"@ && c.menu != "fuzzel"@ ==> launch_of(
            c,
        ) == Err::<(Seq<char>, Seq<Seq<char>>), Seq<char>>(c.menu),
{
    reveal_strlit("rofi");
    reveal_strlit("wofi");
    reveal_strlit("fuzzel");
    assert("rofi"@[0] != "wofi"@[0]);
    assert("rofi"@.len() != "fuzzel"@.len());
    assert("wofi"@.len() != "fuzzel"@.len());
    assert(seq!["-dmenu"@, "-i"@, "-p"@, prompt(c)].last() == prompt(c));
    assert(seq!["--dmenu"@, "--prompt"@, prompt(c)].last() == prompt(c));
}

fn text(s: &str) -> (r: String)
    ensures
        r@ == s@,
{
    string_of(&chars_of(s))
}

/// The launcher to show the menu with, or the name of an unsupported one.
pub fn launcher(config: &Config) -> (r: Result<Launch, String>)
    ensures
        match r {
            Ok(l) => launch_of(config@) == Ok::<(Seq<char>, Seq<Seq<char>>), Seq<char>>(
                (l.program@, l.args@.map_values(|a: String| a@)),
            ),
            Err(name) => launch_of(config@) == Err::<(Seq<char>, Seq<Seq<char>>), Seq<char>>(
                name@,
            ),
        },
{
    let name = if config.menu.as_str().is_empty() {
        text("rofi")
    } else {
        config.menu.clone()
    };
    let title = if config.title.as_str().is_empty() {
        text("menupp")
    } else {
        config.title.clone()
    };
    let n = chars_of(name.as_str());
    let mut args: Vec<String> = Vec::new();
    if is_text(&n, "rofi") {
        args.push(text("-dmenu"));
        args.push(text("-i"));
        args.push(text("-p"));
        args.push(title);
        assert(args@.map_values(|a: String| a@) =~= seq!["-dmenu"@, "-i"@, "-p"@, title@]);
        Ok(Launch { program: text("rofi"), args })
    } else if is_text(&n, "fuzzel") {
        args.push(text("--dmenu"));
        assert(args@.map_values(|a: String| a@) =~= seq!["--dmenu"@]);
        Ok(Launch { program: text("fuzzel"), args })
    } else if is_text(&n, "wofi") {
        args.push(text("--dmenu"));
        args.push(text("--prompt"));
        args.push(title);
        assert(args@.map_values(|a: String| a@) =~= seq!["--dmenu"@, "--prompt"@, title@]);
        Ok(Launch { program: text("wofi"), args })
    } else {
        Err(name)
    }
}

/// The names of the items, one per line: what the launcher is given.
pub fn launcher_input(items: &Vec<Item>) -> (r: String)
    ensures
        r@ == join(items_view(items@).map_values(|i: ItemView| i.name), seq!['\n']),
{
    let ghost ns = items_view(items@).map_values(|i: ItemView| i.name);
    let mut names: Vec<Vec<char>> = Vec::new();
    let mut i: usize = 0;
    while i < items.len()
        invariant
            i <= items.len(),
            ns == items_view(items@).map_values(|i: ItemView| i.name),
            names@.map_values(|p: Vec<char>| p@) == ns.take(i as int),
        decreases items.len() - i,
    {
        let ghost before = names@;
        assert(items_view(items@)[i as int] == items@[i as int]@);
        assert(ns[i as int] == items@[i as int].name@);
        let n = chars_of(items[i].name.as_str());
        names.push(n);
        assert(names@.map_values(|p: Vec<char>| p@) =~= before.map_values(|p: Vec<char>| p@).push(
            n@,
        ));
        assert(ns.take(i + 1) =~= ns.take(i as int).push(ns[i as int]));
        i = i + 1;
    }
    assert(ns.take(items.len() as int) =~= ns);
    let mut sep: Vec<char> = Vec::new();
    sep.push('\n');
    string_of(&join_chars(&names, &sep))
}

/// The choice that a launcher printed: its output trimmed; `None` when
/// nothing is left.
pub fn launcher_choice(output: &str) -> (r: Option<String>)
    ensures
        r matches Some(c) ==> c@ == trim(output@) && c@.len() > 0,
        r is None ==> trim(output@).len() == 0,
{
    let t = trim_chars(&chars_of(output));
    if t.len() == 0 {
        None
    } else {
        Some(string_of(&t))
    }
}

} // verus!
