//! The small pieces of menu syntax: quoted strings, `"key" = value` pairs,
//! `exec("..")`, `submenu("..")`, function definitions and calls.

use vstd::prelude::*;
use crate::text::{
    is_first, is_space, lemma_first_index, trim_end, trim_start,
    chars_of, find_char, has_prefix, slice_of, split_once, starts_with, string_of, trim, trim_chars,
};

verus! {

// ---------------------------------------------------------------------------
// Specifications
// ---------------------------------------------------------------------------

/// The text between the quotes of a double-quoted string (surrounding
/// whitespace allowed), if `s` is one.
pub open spec fn unquoted(s: Seq<char>) -> Option<Seq<char>> {
    let t = trim(s);
    if t.len() >= 2 && t[0] == '"' && t.last() == '"' {
        Some(t.subrange(1, t.len() - 1))
    } else {
        None
    }
}

/// `"key" = value`: the unquoted key and the trimmed value, split at the
/// first `=`.
pub open spec fn key_value(line: Seq<char>) -> Option<(Seq<char>, Seq<char>)> {
    match split_once(line, '=') {
        None => None,
        Some((k, v)) => match unquoted(trim(k)) {
            None => None,
            Some(key) => Some((key, trim(v))),
        },
    }
}

/// `head("arg")` with `head` ending in `(`: the unquoted argument.
pub open spec fn call_argument(value: Seq<char>, head: Seq<char>) -> Option<Seq<char>> {
    let v = trim(value);
    if starts_with(v, head) && v.len() >= head.len() + 1 && v.last() == ')' {
        unquoted(trim(v.subrange(head.len() as int, v.len() - 1)))
    } else {
        None
    }
}

/// `exec("command")`: the command.
pub open spec fn exec_argument(value: Seq<char>) -> Option<Seq<char>> {
    call_argument(value, "exec("@)
}

/// `submenu("name")`: the submenu's name.
pub open spec fn submenu_argument(value: Seq<char>) -> Option<Seq<char>> {
    call_argument(value, "submenu("@)
}

/// `name(argument) = body`: the name, the parameter and the trimmed body;
/// neither name nor parameter may be empty.
pub open spec fn function_definition(line: Seq<char>) -> Option<(Seq<char>, Seq<char>, Seq<char>)> {
    match split_once(line, '=') {
        None => None,
        Some((sig0, body)) => {
            let sig = trim(sig0);
            match split_once(sig, '(') {
                None => None,
                Some((n, a)) => {
                    let name = trim(n);
                    if a.len() >= 1 && a.last() == ')' {
                        let arg = trim(a.drop_last());
                        if name.len() == 0 || arg.len() == 0 {
                            None
                        } else {
                            Some((name, arg, trim(body)))
                        }
                    } else {
                        None
                    }
                },
            }
        },
    }
}

/// `name("argument")`: the name (not empty) and the unquoted argument.
pub open spec fn function_call(value: Seq<char>) -> Option<(Seq<char>, Seq<char>)> {
    let v = trim(value);
    match split_once(v, '(') {
        None => None,
        Some((n, a)) => {
            let name = trim(n);
            if a.len() >= 1 && a.last() == ')' && name.len() > 0 {
                match unquoted(trim(a.drop_last())) {
                    None => None,
                    Some(arg) => Some((name, arg)),
                }
            } else {
                None
            }
        },
    }
}

/// The text of `s` before a `#` that stands outside double quotes, when
/// reading starts inside quotes or not (`quoted`).
pub open spec fn before_comment(s: Seq<char>, quoted: bool) -> Seq<char>
    decreases s.len(),
{
    if s.len() == 0 {
        s
    } else if !quoted && s[0] == '#' {
        seq![]
    } else {
        seq![s[0]] + before_comment(s.drop_first(), if s[0] == '"' { !quoted } else { quoted })
    }
}

/// A setting's value: the text before a trailing `# comment`, trimmed.
pub open spec fn setting_value(v: Seq<char>) -> Seq<char> {
    trim(before_comment(v, false))
}

/// Any text between double quotes is read back as written.
pub proof fn lemma_unquoted_quoted(t: Seq<char>)
    ensures
        unquoted(seq!['"'] + t + seq!['"']) == Some(t),
{
    let s = seq!['"'] + t + seq!['"'];
    assert(!is_space(s[0]));
    assert(s.drop_first() == t + seq!['"']);
    assert(trim_start(s) == s);
    assert(!is_space(s.last()));
    assert(trim_end(s) == s);
    assert(s.subrange(1, s.len() - 1) == t);
}

proof fn lemma_trim_fixed(s: Seq<char>)
    requires
        s.len() > 0,
        !is_space(s[0]),
        !is_space(s.last()),
    ensures
        trim(s) == s,
{
    assert(trim_start(s) == s);
    assert(trim_end(s) == s);
}

proof fn lemma_trim_end_spaces(x: Seq<char>, sp: Seq<char>)
    requires
        forall|i: int| 0 <= i < sp.len() ==> is_space(#[trigger] sp[i]),
    ensures
        trim_end(x + sp) == trim_end(x),
    decreases sp.len(),
{
    if sp.len() == 0 {
        assert(x + sp == x);
    } else {
        assert((x + sp).last() == sp[sp.len() - 1]);
        assert((x + sp).drop_last() == x + sp.drop_last());
        lemma_trim_end_spaces(x, sp.drop_last());
    }
}

/// `head"t")`, for a head that ends in `(`, gives `t` as written, whatever
/// it holds.
pub proof fn lemma_call_argument(head: Seq<char>, t: Seq<char>)
    requires
        head.len() > 0,
        !is_space(head[0]),
    ensures
        call_argument(head + seq!['"'] + t + seq!['"', ')'], head) == Some(t),
{
    let v = head + seq!['"'] + t + seq!['"', ')'];
    assert(v[0] == head[0]);
    assert(v.last() == ')');
    lemma_trim_fixed(v);
    assert(v.take(head.len() as int) == head);
    let inner = v.subrange(head.len() as int, v.len() - 1);
    assert(inner == seq!['"'] + t + seq!['"']);
    lemma_trim_fixed(inner);
    lemma_unquoted_quoted(t);
}

/// `exec("c")` and `submenu("s")` give their argument as written.
pub proof fn lemma_exec_and_submenu(t: Seq<char>)
    ensures
        exec_argument("exec("@ + seq!['"'] + t + seq!['"', ')']) == Some(t),
        submenu_argument("submenu("@ + seq!['"'] + t + seq!['"', ')']) == Some(t),
{
    reveal_strlit("exec(");
    reveal_strlit("submenu(");
    lemma_call_argument("exec("@, t);
    lemma_call_argument("submenu("@, t);
}

/// `"k" = v`, the key quoted and free of `=`, with any whitespace before
/// the `=`, gives the key and the trimmed value.
pub proof fn lemma_key_value(k: Seq<char>, sp: Seq<char>, v: Seq<char>)
    requires
        forall|i: int| 0 <= i < k.len() ==> #[trigger] k[i] != '=',
        forall|i: int| 0 <= i < sp.len() ==> is_space(#[trigger] sp[i]),
    ensures
        key_value(seq!['"'] + k + seq!['"'] + sp + seq!['='] + v) == Some((k, trim(v))),
{
    let qk = seq!['"'] + k + seq!['"'];
    let left = qk + sp;
    let line = left + seq!['='] + v;
    let n = left.len() as int;
    assert forall|j: int| 0 <= j < n implies line[j] != '=' by {
        assert(line[j] == left[j]);
        if j == 0 || j == k.len() + 1 {
        } else if j <= k.len() {
            assert(left[j] == k[j - 1]);
        } else {
            assert(left[j] == sp[j - k.len() - 2]);
            assert(is_space(sp[j - k.len() - 2]));
        }
    }
    assert(line[n] == '=');
    assert(is_first(line, '=', n));
    lemma_first_index(line, '=', n);
    assert(line.take(n) == left);
    assert(line.skip(n + 1) == v);
    lemma_trim_end_spaces(qk, sp);
    assert(left[0] == '"');
    assert(trim_start(left) == left);
    assert(qk.last() == '"');
    assert(trim_end(qk) == qk);
    assert(trim(left) == qk);
    lemma_trim_fixed(qk);
    lemma_unquoted_quoted(k);
}

pub open spec fn opt_string_view(o: Option<String>) -> Option<Seq<char>> {
    match o {
        Some(s) => Some(s@),
        None => None,
    }
}

pub open spec fn opt_chars_view(o: Option<Vec<char>>) -> Option<Seq<char>> {
    match o {
        Some(s) => Some(s@),
        None => None,
    }
}

// ---------------------------------------------------------------------------
// On character vectors
// ---------------------------------------------------------------------------

pub fn unquote(s: &Vec<char>) -> (r: Option<Vec<char>>)
    ensures
        opt_chars_view(r) == unquoted(s@),
{
    let t = trim_chars(s);
    if t.len() >= 2 && t[0] == '"' && t[t.len() - 1] == '"' {
        Some(slice_of(&t, 1, t.len() - 1))
    } else {
        None
    }
}

pub fn split_key_value(line: &Vec<char>) -> (r: Option<(Vec<char>, Vec<char>)>)
    ensures
        match r {
            Some((k, v)) => key_value(line@) == Some((k@, v@)),
            None => key_value(line@) is None,
        },
{
    match find_char(line, '=') {
        None => None,
        Some(eq) => {
            let k = slice_of(line, 0, eq);
            let v = slice_of(line, eq + 1, line.len());
            assert(k@ == line@.take(eq as int));
            assert(v@ == line@.skip(eq + 1));
            match unquote(&trim_chars(&k)) {
                None => None,
                Some(key) => Some((key, trim_chars(&v))),
            }
        },
    }
}

pub fn call_arg(value: &Vec<char>, head: &str) -> (r: Option<Vec<char>>)
    ensures
        opt_chars_view(r) == call_argument(value@, head@),
{
    let v = trim_chars(value);
    let h = chars_of(head);
    if has_prefix(&v, &h) && v.len() > h.len() && v[v.len() - 1] == ')' {
        let inner = slice_of(&v, h.len(), v.len() - 1);
        unquote(&trim_chars(&inner))
    } else {
        None
    }
}

pub fn define_function(line: &Vec<char>) -> (r: Option<(Vec<char>, Vec<char>, Vec<char>)>)
    ensures
        match r {
            Some((n, a, b)) => function_definition(line@) == Some((n@, a@, b@)),
            None => function_definition(line@) is None,
        },
{
    let eq = match find_char(line, '=') {
        None => return None,
        Some(eq) => eq,
    };
    let sig0 = slice_of(line, 0, eq);
    let body = slice_of(line, eq + 1, line.len());
    assert(sig0@ == line@.take(eq as int));
    assert(body@ == line@.skip(eq + 1));
    let sig = trim_chars(&sig0);
    let open = match find_char(&sig, '(') {
        None => return None,
        Some(o) => o,
    };
    let n = slice_of(&sig, 0, open);
    let a = slice_of(&sig, open + 1, sig.len());
    assert(n@ == sig@.take(open as int));
    assert(a@ == sig@.skip(open + 1));
    let name = trim_chars(&n);
    if a.len() >= 1 && a[a.len() - 1] == ')' {
        let a1 = slice_of(&a, 0, a.len() - 1);
        assert(a1@ == a@.drop_last());
        let arg = trim_chars(&a1);
        if name.len() == 0 || arg.len() == 0 {
            None
        } else {
            Some((name, arg, trim_chars(&body)))
        }
    } else {
        None
    }
}

pub fn call_function(value: &Vec<char>) -> (r: Option<(Vec<char>, Vec<char>)>)
    ensures
        match r {
            Some((n, a)) => function_call(value@) == Some((n@, a@)),
            None => function_call(value@) is None,
        },
{
    let v = trim_chars(value);
    let open = match find_char(&v, '(') {
        None => return None,
        Some(o) => o,
    };
    let n = slice_of(&v, 0, open);
    let a = slice_of(&v, open + 1, v.len());
    assert(n@ == v@.take(open as int));
    assert(a@ == v@.skip(open + 1));
    let name = trim_chars(&n);
    if a.len() >= 1 && a[a.len() - 1] == ')' && name.len() > 0 {
        let a1 = slice_of(&a, 0, a.len() - 1);
        assert(a1@ == a@.drop_last());
        match unquote(&trim_chars(&a1)) {
            None => None,
            Some(arg) => Some((name, arg)),
        }
    } else {
        None
    }
}

/// A setting's value without a trailing `# comment` (a `#` outside double
/// quotes), trimmed.
pub fn setting_text(v: &Vec<char>) -> (r: Vec<char>)
    ensures
        r@ == setting_value(v@),
{
    let mut quoted = false;
    let mut i: usize = 0;
    assert(v@.skip(0) == v@);
    assert(v@.take(0) + before_comment(v@, false) == before_comment(v@, false));
    while i < v.len() && (quoted || v[i] != '#')
        invariant
            i <= v.len(),
            before_comment(v@, false) == v@.take(i as int) + before_comment(v@.skip(i as int), quoted),
        decreases v.len() - i,
    {
        assert(v@.skip(i as int).drop_first() == v@.skip(i + 1));
        assert(v@.take(i + 1) == v@.take(i as int) + seq![v@[i as int]]);
        if v[i] == '"' {
            quoted = !quoted;
        }
        i = i + 1;
    }
    assert(before_comment(v@.skip(i as int), quoted) == Seq::<char>::empty());
    assert(v@.take(i as int) + Seq::<char>::empty() == v@.take(i as int));
    let kept = slice_of(v, 0, i);
    trim_chars(&kept)
}

// ---------------------------------------------------------------------------
// On strings
// ---------------------------------------------------------------------------

/// The text between the quotes of a double-quoted string (surrounding
/// whitespace allowed); `None` if `s` is not one.
pub fn strip_quotes(s: &str) -> (r: Option<String>)
    ensures
        opt_string_view(r) == unquoted(s@),
{
    match unquote(&chars_of(s)) {
        Some(t) => Some(string_of(&t)),
        None => None,
    }
}

/// Parses `"key" = value`: the unquoted key and the trimmed value.
pub fn parse_kv(line: &str) -> (r: Option<(String, String)>)
    ensures
        match r {
            Some((k, v)) => key_value(line@) == Some((k@, v@)),
            None => key_value(line@) is None,
        },
{
    match split_key_value(&chars_of(line)) {
        Some((k, v)) => Some((string_of(&k), string_of(&v))),
        None => None,
    }
}

/// Parses `exec("command")`: the command.
pub fn parse_exec(value: &str) -> (r: Option<String>)
    ensures
        opt_string_view(r) == exec_argument(value@),
{
    match call_arg(&chars_of(value), "exec(") {
        Some(t) => Some(string_of(&t)),
        None => None,
    }
}

/// Parses `submenu("name")`: the submenu's name.
pub fn parse_submenu(value: &str) -> (r: Option<String>)
    ensures
        opt_string_view(r) == submenu_argument(value@),
{
    match call_arg(&chars_of(value), "submenu(") {
        Some(t) => Some(string_of(&t)),
        None => None,
    }
}

} // verus!
