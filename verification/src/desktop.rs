//! Reading `.desktop` files: their `key=value` fields, the command line of
//! their `Exec` field, and the application entry they describe.

use vstd::prelude::*;
use crate::items_json::{json_document, json_items, JsonDocumentView, JsonEntryView};
use crate::model::{ActionView, ItemView};
use crate::syntax::opt_string_view;
use crate::text::{
    ends_with, first_index, has_suffix, is_first, is_word, lemma_first_index, lemma_lines_push,
    lemma_words_are_words, lemma_words_of_join, starts_with, chars_of, find_char, join, join_chars, lines, lines_of, same, slice_of, split_once, string_of,
    words, words_of,
};

verus! {

/// The `key=value` fields of the given lines, in order; a line without
/// `=` is no field.
pub open spec fn fields_of(ls: Seq<Seq<char>>) -> Seq<(Seq<char>, Seq<char>)>
    decreases ls.len(),
{
    if ls.len() == 0 {
        seq![]
    } else {
        let f = fields_of(ls.drop_last());
        match split_once(ls.last(), '=') {
            Some(kv) => f.push(kv),
            None => f,
        }
    }
}

/// The value of the last field named `key`: later fields override earlier.
pub open spec fn field(fs: Seq<(Seq<char>, Seq<char>)>, key: Seq<char>) -> Option<Seq<char>>
    decreases fs.len(),
{
    if fs.len() == 0 {
        None
    } else if fs.last().0 == key {
        Some(fs.last().1)
    } else {
        field(fs.drop_last(), key)
    }
}

/// No key occurs twice.
pub open spec fn distinct_keys(fs: Seq<(Seq<char>, Seq<char>)>) -> bool {
    forall|i: int, j: int| 0 <= i < j < fs.len() ==> (#[trigger] fs[i]).0 != (#[trigger] fs[j]).0
}

/// `fs` with field `k` set to `v`: its value replaced where `k` already
/// stands, otherwise added at the end.
pub open spec fn set_field(fs: Seq<(Seq<char>, Seq<char>)>, k: Seq<char>, v: Seq<char>) -> Seq<
    (Seq<char>, Seq<char>),
> {
    if exists|i: int| 0 <= i < fs.len() && (#[trigger] fs[i]).0 == k {
        fs.update(choose|i: int| 0 <= i < fs.len() && (#[trigger] fs[i]).0 == k, (k, v))
    } else {
        fs.push((k, v))
    }
}

/// The fields of the given lines as a table: one entry per key, in the
/// order the keys first occur, each holding the value of its last line.
pub open spec fn field_table(ls: Seq<Seq<char>>) -> Seq<(Seq<char>, Seq<char>)>
    decreases ls.len(),
{
    if ls.len() == 0 {
        seq![]
    } else {
        let t = field_table(ls.drop_last());
        match split_once(ls.last(), '=') {
            Some((k, v)) => set_field(t, k, v),
            None => t,
        }
    }
}

/// The words that are no field codes (`%f`, `%U`, ...).
pub open spec fn plain_words(ws: Seq<Seq<char>>) -> Seq<Seq<char>>
    decreases ws.len(),
{
    if ws.len() == 0 {
        seq![]
    } else {
        let p = plain_words(ws.drop_last());
        let w = ws.last();
        if w.len() > 0 && w[0] == '%' {
            p
        } else {
            p.push(w)
        }
    }
}

/// An `Exec` value without its field codes, words joined by single spaces.
pub open spec fn exec_line(command: Seq<char>) -> Seq<char> {
    join(plain_words(words(command)), seq![' '])
}

pub struct DesktopEntryView {
    pub name: Seq<char>,
    pub command: Seq<char>,
    pub icon: Option<Seq<char>>,
}

/// The application that a `.desktop` file describes, if it is one to show:
/// of `Type` `Application` (the default), neither `NoDisplay` nor `Hidden`,
/// with a `Name` and an `Exec`; its `Icon` is left out on request.
pub open spec fn application(contents: Seq<char>, no_icons: bool) -> Option<DesktopEntryView> {
    let fs = fields_of(lines(contents));
    let kind = match field(fs, "Type"@) {
        Some(t) => t,
        None => "Application"@,
    };
    if kind != "Application"@ || field(fs, "NoDisplay"@) == Some("true"@) || field(fs, "Hidden"@)
        == Some("true"@) {
        None
    } else {
        match (field(fs, "Name"@), field(fs, "Exec"@)) {
            (Some(n), Some(e)) => Some(
                DesktopEntryView {
                    name: n,
                    command: exec_line(e),
                    icon: if no_icons {
                        None
                    } else {
                        field(fs, "Icon"@)
                    },
                },
            ),
            _ => None,
        }
    }
}

// ---------------------------------------------------------------------------
// Laws
// ---------------------------------------------------------------------------

/// A line that sets field `k`: it begins with `k=`.
pub open spec fn key_line(l: Seq<char>, k: Seq<char>) -> bool {
    starts_with(l, k + seq!['='])
}

/// Line `i` sets field `k` to `v`, and no later line sets `k`.
pub open spec fn is_last_setting(ls: Seq<Seq<char>>, k: Seq<char>, v: Seq<char>, i: int) -> bool {
    &&& 0 <= i < ls.len()
    &&& ls[i] == k + seq!['='] + v
    &&& forall|j: int| i < j < ls.len() ==> !key_line(#[trigger] ls[j], k)
}

proof fn lemma_split_key(l: Seq<char>, k: Seq<char>)
    requires
        !k.contains('='),
    ensures
        (split_once(l, '=') matches Some((a, b)) && a == k) <==> key_line(l, k),
        key_line(l, k) ==> split_once(l, '=') == Some((k, l.skip(k.len() as int + 1))) && l == k
            + seq!['='] + l.skip(k.len() as int + 1),
{
    let n = k.len() as int;
    if key_line(l, k) {
        assert(l.take(n + 1) == k + seq!['=']);
        assert(l[n] == l.take(n + 1)[n]);
        assert forall|j: int| 0 <= j < n implies l[j] != '=' by {
            assert(l[j] == l.take(n + 1)[j]);
            assert(l[j] == k[j]);
        }
        assert(is_first(l, '=', n));
        lemma_first_index(l, '=', n);
        assert(l.take(n) == k);
        assert(l == k + seq!['='] + l.skip(n + 1));
    }
    if let Some((a, b)) = split_once(l, '=') {
        if a == k {
            let m = first_index(l, '=')->0;
            assert(is_first(l, '=', m));
            assert(m == n);
            assert(l.take(n + 1) == k + seq!['=']);
        }
    }
}

proof fn lemma_keys_have_no_equals(ls: Seq<Seq<char>>)
    ensures
        forall|i: int| 0 <= i < fields_of(ls).len() ==> !(#[trigger] fields_of(ls)[i]).0.contains('='),
    decreases ls.len(),
{
    if ls.len() > 0 {
        lemma_keys_have_no_equals(ls.drop_last());
        let l = ls.last();
        if let Some((a, b)) = split_once(l, '=') {
            let m = first_index(l, '=')->0;
            assert(is_first(l, '=', m));
            assert(a == l.take(m));
            assert forall|j: int| 0 <= j < a.len() implies a[j] != '=' by {
                assert(a[j] == l[j]);
            }
            assert(!a.contains('='));
            let f = fields_of(ls.drop_last());
            assert(fields_of(ls) == f.push((a, b)));
            assert forall|i: int| 0 <= i < fields_of(ls).len() implies !(
            #[trigger] fields_of(ls)[i]).0.contains('=') by {
                if i < f.len() {
                    assert(fields_of(ls)[i] == f[i]);
                } else {
                    assert(fields_of(ls)[i] == (a, b));
                }
            }
        } else {
            assert(fields_of(ls) == fields_of(ls.drop_last()));
        }
    }
}

proof fn lemma_no_such_key(fs: Seq<(Seq<char>, Seq<char>)>, k: Seq<char>)
    requires
        forall|i: int| 0 <= i < fs.len() ==> (#[trigger] fs[i]).0 != k,
    ensures
        field(fs, k) is None,
    decreases fs.len(),
{
    if fs.len() > 0 {
        assert(fs.last() == fs[fs.len() - 1]);
        lemma_no_such_key(fs.drop_last(), k);
    }
}

/// The fields of a `.desktop` file act as a map: field `k` has value `v`
/// exactly when `k` holds no `=`, some line reads `k=v`, and no later line
/// begins with `k=`. Keys and values are not trimmed; lines without `=`
/// set nothing.
pub proof fn lemma_field_is_last_setting(ls: Seq<Seq<char>>, k: Seq<char>, v: Seq<char>)
    ensures
        field(fields_of(ls), k) == Some(v) <==> (!k.contains('=') && exists|i: int|
            is_last_setting(ls, k, v, i)),
    decreases ls.len(),
{
    if k.contains('=') {
        lemma_keys_have_no_equals(ls);
        let fs = fields_of(ls);
        assert forall|i: int| 0 <= i < fs.len() implies (#[trigger] fs[i]).0 != k by {
            assert(!fs[i].0.contains('='));
        }
        lemma_no_such_key(fs, k);
        return;
    }
    if ls.len() == 0 {
        return;
    }
    let p = ls.drop_last();
    let l = ls.last();
    let n = p.len() as int;
    lemma_field_is_last_setting(p, k, v);
    lemma_split_key(l, k);
    let f = fields_of(p);
    if key_line(l, k) {
        let b = l.skip(k.len() as int + 1);
        assert(fields_of(ls) == f.push((k, b)));
        assert(f.push((k, b)).last() == (k, b));
        assert(field(fields_of(ls), k) == Some(b));
        if v == b {
            assert(is_last_setting(ls, k, v, n));
        }
        if exists|i: int| is_last_setting(ls, k, v, i) {
            let i = choose|i: int| is_last_setting(ls, k, v, i);
            if i < n {
                assert(!key_line(ls[n], k));
            }
            assert(l == k + seq!['='] + v);
            assert(l.skip(k.len() as int + 1) == v);
        }
    } else {
        match split_once(l, '=') {
            Some(kv) => {
                assert(fields_of(ls) == f.push(kv));
                assert(f.push(kv).last() == kv);
                assert(f.push(kv).drop_last() == f);
                assert(kv.0 != k);
            },
            None => {},
        }
        assert(field(fields_of(ls), k) == field(f, k));
        if exists|i: int| is_last_setting(ls, k, v, i) {
            let i = choose|i: int| is_last_setting(ls, k, v, i);
            if i == n {
                assert((k + seq!['='] + v).take(k.len() as int + 1) == k + seq!['=']);
                assert(key_line(l, k));
            }
            assert forall|j: int| i < j < p.len() implies !key_line(#[trigger] p[j], k) by {
                assert(p[j] == ls[j]);
            }
            assert(is_last_setting(p, k, v, i));
        }
        if exists|i: int| is_last_setting(p, k, v, i) {
            let i = choose|i: int| is_last_setting(p, k, v, i);
            assert forall|j: int| i < j < ls.len() implies !key_line(#[trigger] ls[j], k) by {
                if j < n {
                    assert(p[j] == ls[j]);
                }
            }
            assert(is_last_setting(ls, k, v, i));
        }
    }
}

proof fn lemma_field_at(fs: Seq<(Seq<char>, Seq<char>)>, i: int)
    requires
        distinct_keys(fs),
        0 <= i < fs.len(),
    ensures
        field(fs, fs[i].0) == Some(fs[i].1),
    decreases fs.len(),
{
    if i < fs.len() - 1 {
        let p = fs.drop_last();
        assert(fs[i] == p[i]);
        assert(fs[i].0 != fs[fs.len() - 1].0);
        assert(distinct_keys(p)) by {
            assert forall|a: int, b: int| 0 <= a < b < p.len() implies (#[trigger] p[a]).0 != (
            #[trigger] p[b]).0 by {
                assert(p[a] == fs[a] && p[b] == fs[b]);
            }
        }
        lemma_field_at(p, i);
    }
}

proof fn lemma_field_absent(fs: Seq<(Seq<char>, Seq<char>)>, k: Seq<char>)
    requires
        forall|i: int| 0 <= i < fs.len() ==> (#[trigger] fs[i]).0 != k,
    ensures
        field(fs, k) is None,
{
    lemma_no_such_key(fs, k);
}

/// Setting a field keeps the keys distinct and changes that field alone.
proof fn lemma_set_field(fs: Seq<(Seq<char>, Seq<char>)>, k: Seq<char>, v: Seq<char>, q: Seq<char>)
    requires
        distinct_keys(fs),
    ensures
        distinct_keys(set_field(fs, k, v)),
        field(set_field(fs, k, v), q) == if q == k {
            Some(v)
        } else {
            field(fs, q)
        },
{
    let t = set_field(fs, k, v);
    if exists|i: int| 0 <= i < fs.len() && (#[trigger] fs[i]).0 == k {
        let i = choose|i: int| 0 <= i < fs.len() && (#[trigger] fs[i]).0 == k;
        assert(t == fs.update(i, (k, v)));
        assert forall|a: int, b: int| 0 <= a < b < t.len() implies (#[trigger] t[a]).0 != (
        #[trigger] t[b]).0 by {
            assert(fs[a].0 != fs[b].0);
        }
        if q == k {
            lemma_field_at(t, i);
        } else if exists|j: int| 0 <= j < fs.len() && (#[trigger] fs[j]).0 == q {
            let j = choose|j: int| 0 <= j < fs.len() && (#[trigger] fs[j]).0 == q;
            assert(t[j] == fs[j]);
            lemma_field_at(t, j);
            lemma_field_at(fs, j);
        } else {
            assert forall|j: int| 0 <= j < t.len() implies (#[trigger] t[j]).0 != q by {
                if j != i {
                    assert(t[j] == fs[j]);
                }
            }
            lemma_field_absent(t, q);
            lemma_field_absent(fs, q);
        }
    } else {
        assert(t == fs.push((k, v)));
        assert(t.drop_last() == fs);
        assert forall|a: int, b: int| 0 <= a < b < t.len() implies (#[trigger] t[a]).0 != (
        #[trigger] t[b]).0 by {
            if b < fs.len() {
                assert(t[a] == fs[a] && t[b] == fs[b]);
            } else {
                assert(t[a] == fs[a]);
            }
        }
    }
}

/// The table of fields has one entry per key, and gives every key the
/// value that the field list gives it (the last one).
pub proof fn lemma_field_table(ls: Seq<Seq<char>>, q: Seq<char>)
    ensures
        distinct_keys(field_table(ls)),
        field(field_table(ls), q) == field(fields_of(ls), q),
    decreases ls.len(),
{
    if ls.len() > 0 {
        let p = ls.drop_last();
        lemma_field_table(p, q);
        let f = fields_of(p);
        match split_once(ls.last(), '=') {
            Some((k, v)) => {
                lemma_set_field(field_table(p), k, v, q);
                assert(fields_of(ls) == f.push((k, v)));
                assert(f.push((k, v)).drop_last() == f);
            },
            None => {},
        }
    }
}

/// A `.desktop` file hides its application by `NoDisplay` or `Hidden`
/// only with the value `true`: a last line `k=true` hides it, and a last
/// line `k=v` with any other value leaves its listing as it was, as though
/// the line were not there.
pub proof fn lemma_hiding_field(c: Seq<char>, k: Seq<char>, v: Seq<char>, no_icons: bool)
    requires
        k == "NoDisplay"@ || k == "Hidden"@,
        c.len() == 0 || c.last() == '\n',
        forall|i: int| 0 <= i < v.len() ==> #[trigger] v[i] != '\n',
    ensures
        v == "true"@ ==> application(c + (k + seq!['='] + v), no_icons) is None,
        v != "true"@ && field(fields_of(lines(c)), k) != Some("true"@) ==> application(
            c + (k + seq!['='] + v),
            no_icons,
        ) == application(c, no_icons),
{
    reveal_strlit("NoDisplay");
    reveal_strlit("Hidden");
    reveal_strlit("Type");
    reveal_strlit("Name");
    reveal_strlit("Exec");
    reveal_strlit("Icon");
    let l = k + seq!['='] + v;
    assert forall|i: int| 0 <= i < l.len() implies #[trigger] l[i] != '\n' by {
        if i < k.len() {
            assert(l[i] == k[i]);
        } else if i == k.len() {
            assert(l[i] == '=');
        } else {
            assert(l[i] == v[i - k.len() - 1]);
        }
    }
    lemma_lines_push(c, l);
    assert(!k.contains('=')) by {
        if k.contains('=') {
            let j = choose|j: int| 0 <= j < k.len() && k[j] == '=';
        }
    }
    assert(l.take(k.len() as int + 1) == k + seq!['=']);
    lemma_split_key(l, k);
    assert(l.skip(k.len() as int + 1) == v);
    let fs = fields_of(lines(c));
    assert(key_line(l, k));
    assert(split_once(l, '=') == Some((k, v)));
    assert(lines(c + l).drop_last() == lines(c));
    assert(lines(c + l).last() == l);
    assert(fields_of(lines(c + l)) == fs.push((k, v)));
    let gs = fs.push((k, v));
    assert(gs.drop_last() == fs);
    assert(gs.last() == (k, v));
    assert("Type"@.len() != k.len());
    assert("Name"@.len() != k.len());
    assert("Exec"@.len() != k.len());
    assert("Icon"@.len() != k.len());
    assert(field(gs, "Type"@) == field(fs, "Type"@));
    assert(field(gs, "Name"@) == field(fs, "Name"@));
    assert(field(gs, "Exec"@) == field(fs, "Exec"@));
    assert(field(gs, "Icon"@) == field(fs, "Icon"@));
    assert(field(gs, k) == Some(v));
    if k == "NoDisplay"@ {
        assert(field(gs, "Hidden"@) == field(fs, "Hidden"@));
    } else {
        assert(field(gs, "NoDisplay"@) == field(fs, "NoDisplay"@));
    }
}

proof fn lemma_plain_words(ws: Seq<Seq<char>>)
    requires
        forall|i: int| 0 <= i < ws.len() ==> is_word(#[trigger] ws[i]),
    ensures
        forall|i: int| 0 <= i < plain_words(ws).len() ==> is_word(#[trigger] plain_words(ws)[i]),
        forall|i: int|
            0 <= i < plain_words(ws).len() ==> (#[trigger] plain_words(ws)[i])[0] != '%',
    decreases ws.len(),
{
    if ws.len() > 0 {
        let p = ws.drop_last();
        assert forall|i: int| 0 <= i < p.len() implies is_word(#[trigger] p[i]) by {
            assert(p[i] == ws[i]);
        }
        lemma_plain_words(p);
        assert(is_word(ws.last()));
        let q = plain_words(p);
        let r = plain_words(ws);
        assert forall|i: int| 0 <= i < r.len() implies is_word(#[trigger] r[i]) && r[i][0] != '%' by {
            if i < q.len() {
                assert(r[i] == q[i]);
            }
        }
    }
}

proof fn lemma_plain_words_kept(ws: Seq<Seq<char>>)
    requires
        forall|i: int| 0 <= i < ws.len() ==> is_word(#[trigger] ws[i]) && ws[i][0] != '%',
    ensures
        plain_words(ws) == ws,
    decreases ws.len(),
{
    if ws.len() > 0 {
        let p = ws.drop_last();
        assert forall|i: int| 0 <= i < p.len() implies is_word(#[trigger] p[i]) && p[i][0] != '%' by {
            assert(p[i] == ws[i]);
        }
        lemma_plain_words_kept(p);
        assert(is_word(ws.last()) && ws.last()[0] != '%');
        assert(p.push(ws.last()) == ws);
    }
}

/// Cleaning an `Exec` value twice gives what cleaning it once gives.
pub proof fn lemma_exec_line_idempotent(command: Seq<char>)
    ensures
        exec_line(exec_line(command)) == exec_line(command),
{
    let ws = words(command);
    lemma_words_are_words(command);
    lemma_plain_words(ws);
    let p = plain_words(ws);
    lemma_words_of_join(p);
    lemma_plain_words_kept(p);
}

/// The words of a cleaned `Exec` value are the words of the original that
/// are no field codes: none of them begins with `%`.
pub proof fn lemma_exec_line_words(command: Seq<char>)
    ensures
        words(exec_line(command)) == plain_words(words(command)),
        forall|i: int|
            0 <= i < words(exec_line(command)).len() ==> (#[trigger] words(exec_line(command))[i]).len()
                > 0 && words(exec_line(command))[i][0] != '%',
{
    lemma_words_are_words(command);
    lemma_plain_words(words(command));
    lemma_words_of_join(plain_words(words(command)));
    let p = plain_words(words(command));
    assert forall|i: int| 0 <= i < p.len() implies (#[trigger] p[i]).len() > 0 && p[i][0] != '%' by {
        assert(is_word(p[i]));
    }
}

/// An application to list.
#[derive(Debug)]
pub struct DesktopEntry {
    pub name: String,
    pub command: String,
    pub icon: Option<String>,
}

impl View for DesktopEntry {
    type V = DesktopEntryView;

    open spec fn view(&self) -> DesktopEntryView {
        DesktopEntryView { name: self.name@, command: self.command@, icon: opt_string_view(self.icon) }
    }
}

pub open spec fn pairs_view(fs: Seq<(String, String)>) -> Seq<(Seq<char>, Seq<char>)> {
    fs.map_values(|f: (String, String)| (f.0@, f.1@))
}

/// The position of the field named `k`, if any.
fn find_key(fs: &Vec<(String, String)>, k: &Vec<char>) -> (r: Option<usize>)
    ensures
        r matches Some(j) ==> j < fs.len() && pairs_view(fs@)[j as int].0 == k@,
        r is None ==> forall|a: int| 0 <= a < fs.len() ==> (#[trigger] pairs_view(fs@)[a]).0 != k@,
{
    let mut j: usize = 0;
    while j < fs.len()
        invariant
            j <= fs.len(),
            forall|a: int| 0 <= a < j ==> (#[trigger] pairs_view(fs@)[a]).0 != k@,
        decreases fs.len() - j,
    {
        assert(pairs_view(fs@)[j as int] == (fs@[j as int].0@, fs@[j as int].1@));
        if same(&chars_of(fs[j].0.as_str()), k) {
            return Some(j);
        }
        j = j + 1;
    }
    None
}

/// The `key=value` fields of a `.desktop` file, one per key (in the order
/// the keys first occur), each with the value of the key's last line.
pub fn desktop_fields(contents: &str) -> (r: Vec<(String, String)>)
    ensures
        pairs_view(r@) == field_table(lines(contents@)),
        distinct_keys(pairs_view(r@)),
        forall|k: Seq<char>| #[trigger] field(pairs_view(r@), k) == field(fields_of(lines(contents@)), k),
{
    let chars = chars_of(contents);
    let ls = lines_of(&chars);
    let ghost all = lines(contents@);
    let mut r: Vec<(String, String)> = Vec::new();
    let mut i: usize = 0;
    while i < ls.len()
        invariant
            i <= ls.len(),
            ls@.len() == all.len(),
            forall|k: int| 0 <= k < ls@.len() ==> #[trigger] ls@[k]@ == all[k],
            pairs_view(r@) == field_table(all.take(i as int)),
            distinct_keys(pairs_view(r@)),
        decreases ls.len() - i,
    {
        assert(all.take(i + 1).drop_last() == all.take(i as int));
        assert(all.take(i + 1).last() == ls@[i as int]@);
        let line = &ls[i];
        if let Some(eq) = find_char(line, '=') {
            let k = slice_of(line, 0, eq);
            let v = slice_of(line, eq + 1, line.len());
            assert(k@ == line@.take(eq as int));
            assert(v@ == line@.skip(eq + 1));
            let ghost before = pairs_view(r@);
            proof {
                lemma_set_field(before, k@, v@, k@);
            }
            let found = find_key(&r, &k);
            if let Some(j) = found {
                proof {
                    let w = choose|a: int| 0 <= a < before.len() && (#[trigger] before[a]).0 == k@;
                    assert(before[j as int].0 == k@);
                    if w != j {
                        assert(before[w].0 == k@);
                    }
                }
                r.set(j, (string_of(&k), string_of(&v)));
                assert(pairs_view(r@) =~= before.update(j as int, (k@, v@)));
            } else {
                r.push((string_of(&k), string_of(&v)));
                assert(pairs_view(r@) =~= before.push((k@, v@)));
            }
        }
        i = i + 1;
    }
    assert(all.take(ls.len() as int) == all);
    assert forall|q: Seq<char>| #[trigger] field(pairs_view(r@), q) == field(fields_of(all), q) by {
        lemma_field_table(all, q);
    }
    r
}

/// The value of the last field named `key`.
pub fn field_value(fields: &Vec<(String, String)>, key: &str) -> (r: Option<String>)
    ensures
        opt_string_view(r) == field(pairs_view(fields@), key@),
{
    let ghost all = pairs_view(fields@);
    let want = chars_of(key);
    let mut i: usize = fields.len();
    assert(all.take(i as int) == all);
    while i > 0
        invariant
            i <= fields.len(),
            all == pairs_view(fields@),
            want@ == key@,
            field(all, key@) == field(all.take(i as int), key@),
        decreases i,
    {
        assert(all.take(i as int).drop_last() == all.take(i - 1));
        assert(all[i - 1] == (fields@[i - 1].0@, fields@[i - 1].1@));
        let k = chars_of(fields[i - 1].0.as_str());
        if same(&k, &want) {
            return Some(fields[i - 1].1.clone());
        }
        i = i - 1;
    }
    None
}

/// Whether the last field named `key` is exactly `true`.
fn field_is_true(fields: &Vec<(String, String)>, key: &str) -> (r: bool)
    ensures
        r == (field(pairs_view(fields@), key@) == Some("true"@)),
{
    match field_value(fields, key) {
        Some(v) => crate::text::is_text(&chars_of(v.as_str()), "true"),
        None => false,
    }
}

/// An `Exec` value without its field codes (`%f`, `%U`, ...), its words
/// joined by single spaces.
pub fn desktop_exec(command: &str) -> (r: String)
    ensures
        r@ == exec_line(command@),
{
    let ws = words_of(&chars_of(command));
    let ghost all = words(command@);
    let mut kept: Vec<Vec<char>> = Vec::new();
    let mut i: usize = 0;
    while i < ws.len()
        invariant
            i <= ws.len(),
            ws@.len() == all.len(),
            forall|k: int| 0 <= k < ws@.len() ==> #[trigger] ws@[k]@ == all[k],
            kept@.map_values(|p: Vec<char>| p@) == plain_words(all.take(i as int)),
        decreases ws.len() - i,
    {
        assert(all.take(i + 1).drop_last() == all.take(i as int));
        assert(all.take(i + 1).last() == ws@[i as int]@);
        let w = &ws[i];
        if !(w.len() > 0 && w[0] == '%') {
            let ghost before = kept@;
            let copy = slice_of(w, 0, w.len());
            assert(copy@ == w@);
            kept.push(copy);
            assert(kept@.map_values(|p: Vec<char>| p@) =~= before.map_values(|p: Vec<char>| p@).push(
                w@,
            ));
        }
        i = i + 1;
    }
    assert(all.take(ws.len() as int) == all);
    let mut sep: Vec<char> = Vec::new();
    sep.push(' ');
    string_of(&join_chars(&kept, &sep))
}

/// The application that a `.desktop` file describes, if it is one to show.
pub fn application_entry(contents: &str, no_icons: bool) -> (r: Option<DesktopEntry>)
    ensures
        match r {
            Some(e) => application(contents@, no_icons) == Some(e@),
            None => application(contents@, no_icons) is None,
        },
{
    let fields = desktop_fields(contents);
    proof {
        let fs = fields_of(lines(contents@));
        assert(field(pairs_view(fields@), "Type"@) == field(fs, "Type"@));
        assert(field(pairs_view(fields@), "NoDisplay"@) == field(fs, "NoDisplay"@));
        assert(field(pairs_view(fields@), "Hidden"@) == field(fs, "Hidden"@));
        assert(field(pairs_view(fields@), "Name"@) == field(fs, "Name"@));
        assert(field(pairs_view(fields@), "Exec"@) == field(fs, "Exec"@));
        assert(field(pairs_view(fields@), "Icon"@) == field(fs, "Icon"@));
    }
    let kind_ok = match field_value(&fields, "Type") {
        Some(t) => crate::text::is_text(&chars_of(t.as_str()), "Application"),
        None => true,
    };
    proof {
        if field(pairs_view(fields@), "Type"@) is None {
            assert("Application"@ == "Application"@);
        }
    }
    if !kind_ok || field_is_true(&fields, "NoDisplay") || field_is_true(&fields, "Hidden") {
        return None;
    }
    let name = match field_value(&fields, "Name") {
        Some(n) => n,
        None => return None,
    };
    let exec_value = match field_value(&fields, "Exec") {
        Some(e) => e,
        None => return None,
    };
    let icon = if no_icons {
        None
    } else {
        field_value(&fields, "Icon")
    };
    Some(DesktopEntry { name, command: desktop_exec(exec_value.as_str()), icon })
}

/// A file name whose extension (after its last `.`, with something before
/// that `.`) is `desktop`, as `Path::extension` reads it.
pub open spec fn is_desktop_name(name: Seq<char>) -> bool {
    ends_with(name, ".desktop"@) && name.len() > 8
}

/// Whether a file name has the extension `desktop`.
pub fn has_desktop_extension(name: &str) -> (r: bool)
    ensures
        r == is_desktop_name(name@),
{
    let n = chars_of(name);
    let suffix = chars_of(".desktop");
    proof {
        reveal_strlit(".desktop");
    }
    has_suffix(&n, &suffix) && n.len() > 8
}

/// The applications among the contents of some `.desktop` files, in order.
pub open spec fn applications(files: Seq<Seq<char>>, no_icons: bool) -> Seq<DesktopEntryView>
    decreases files.len(),
{
    if files.len() == 0 {
        seq![]
    } else {
        let p = applications(files.drop_last(), no_icons);
        match application(files.last(), no_icons) {
            Some(a) => p.push(a),
            None => p,
        }
    }
}

/// The keys of an application's JSON object: `name`, `exec`, and `icon`
/// when it has one.
pub open spec fn applist_keys(a: DesktopEntryView) -> Set<Seq<char>> {
    if a.icon is Some {
        set!["name"@, "exec"@, "icon"@]
    } else {
        set!["name"@, "exec"@]
    }
}

/// The JSON array elements that list the applications: objects with their
/// name, their command as `exec`, their icon if any, and no other key.
pub open spec fn applist_elements(apps: Seq<DesktopEntryView>) -> Seq<JsonEntryView> {
    apps.map_values(
        |a: DesktopEntryView|
            JsonEntryView {
                name: Some(a.name),
                command: Some(a.command),
                icon: a.icon,
                keys: Some(applist_keys(a)),
            },
    )
}

/// The items that list the applications: each runs its command.
pub open spec fn applist_items(apps: Seq<DesktopEntryView>) -> Seq<ItemView> {
    apps.map_values(
        |a: DesktopEntryView| ItemView { name: a.name, action: ActionView::Exec(a.command), icon: a.icon },
    )
}

/// The JSON text that `serde_json::to_string` writes for the array of the
/// applications' objects.
pub uninterp spec fn applist_text(apps: Seq<DesktopEntryView>) -> Seq<char>;

pub open spec fn entries_of(apps: Seq<DesktopEntry>) -> Seq<DesktopEntryView> {
    apps.map_values(|a: DesktopEntry| a@)
}

/// Builds a `serde_json::Value` array of objects (`name`, `exec`, `icon`
/// when there is one) with `serde_json::Map` and writes it with
/// `serde_json::to_string`. Trusted: the text is `applist_text` of the
/// entries; writing succeeds (serde_json documents a failure only for a
/// `Serialize` impl that fails or a map with keys that are no strings, and
/// `Value` and `Map<String, Value>` have neither); and, as serde_json writes
/// each string escaped and reads it back unchanged, reading that text as
/// JSON gives back an array of exactly those objects.
#[verifier::external_body]
fn applist_json(apps: &Vec<DesktopEntry>) -> (r: Option<String>)
    ensures
        r is Some,
        r->0@ == applist_text(entries_of(apps@)),
        json_document(r->0@) == JsonDocumentView::Array(applist_elements(entries_of(apps@))),
{
    let elements: Vec<serde_json::Value> = apps.iter().map(|a| {
        let mut object = serde_json::Map::new();
        object.insert("name".to_string(), serde_json::Value::String(a.name.clone()));
        object.insert("exec".to_string(), serde_json::Value::String(a.command.clone()));
        if let Some(icon) = &a.icon {
            object.insert("icon".to_string(), serde_json::Value::String(icon.clone()));
        }
        serde_json::Value::Object(object)
    }).collect();
    serde_json::to_string(&elements).ok()
}

/// Every element of the applications' array gives its item.
pub proof fn lemma_applist_elements_give_items(apps: Seq<DesktopEntryView>)
    ensures
        json_items(applist_elements(apps)) == applist_items(apps),
    decreases apps.len(),
{
    if apps.len() > 0 {
        lemma_applist_elements_give_items(apps.drop_last());
        assert(applist_elements(apps).drop_last() == applist_elements(apps.drop_last()));
        assert(applist_items(apps) == applist_items(apps.drop_last()).push(
            applist_items(apps).last(),
        ));
    }
}

/// Without icons, no application has one.
pub proof fn lemma_no_icons(files: Seq<Seq<char>>)
    ensures
        forall|i: int|
            0 <= i < applications(files, true).len() ==> (#[trigger] applications(files, true)[i]).icon is None,
    decreases files.len(),
{
    if files.len() > 0 {
        lemma_no_icons(files.drop_last());
        let p = applications(files.drop_last(), true);
        let r = applications(files, true);
        assert forall|i: int| 0 <= i < r.len() implies (#[trigger] r[i]).icon is None by {
            if i < p.len() {
                assert(r[i] == p[i]);
            }
        }
    }
}

pub open spec fn texts_view(files: Seq<String>) -> Seq<Seq<char>> {
    files.map_values(|f: String| f@)
}

/// The JSON list of the applications that some `.desktop` files describe
/// (`applist()`), as serde_json writes it: an array with one object per
/// application, in order, holding its name, its command as `exec` and its
/// icon if any. Read back, it gives one item per application, running its
/// command; without icons, no item has one.
pub fn generate_applist_json(files: &Vec<String>, no_icons: bool) -> (r: String)
    ensures
        r@ == applist_text(applications(texts_view(files@), no_icons)),
        json_document(r@) == JsonDocumentView::Array(
            applist_elements(applications(texts_view(files@), no_icons)),
        ),
        json_items(applist_elements(applications(texts_view(files@), no_icons))) == applist_items(
            applications(texts_view(files@), no_icons),
        ),
        no_icons ==> forall|i: int|
            0 <= i < applist_items(applications(texts_view(files@), no_icons)).len()
                ==> (#[trigger] applist_items(applications(texts_view(files@), no_icons))[i]).icon is None,
{
    let ghost fs = texts_view(files@);
    let mut apps: Vec<DesktopEntry> = Vec::new();
    let mut i: usize = 0;
    while i < files.len()
        invariant
            i <= files.len(),
            fs == texts_view(files@),
            entries_of(apps@) == applications(fs.take(i as int), no_icons),
        decreases files.len() - i,
    {
        assert(fs.take(i + 1).drop_last() == fs.take(i as int));
        assert(fs.take(i + 1).last() == files@[i as int]@);
        if let Some(app) = application_entry(files[i].as_str(), no_icons) {
            let ghost before = apps@;
            apps.push(app);
            assert(entries_of(apps@) =~= entries_of(before).push(app@));
        }
        i = i + 1;
    }
    assert(fs.take(files.len() as int) == fs);
    proof {
        lemma_applist_elements_give_items(entries_of(apps@));
        if no_icons {
            lemma_no_icons(fs);
            let ap = applications(fs, no_icons);
            assert forall|i: int| 0 <= i < applist_items(ap).len() implies (#[trigger] applist_items(
                ap,
            )[i]).icon is None by {
                assert(applist_items(ap)[i].icon == ap[i].icon);
            }
        }
    }
    match applist_json(&apps) {
        Some(t) => t,
        None => string_of(&chars_of("[]")),
    }
}

} // verus!
