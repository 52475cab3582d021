//! Splitting a command line into its arguments, shell-style: whitespace
//! separates arguments, single and double quotes group, and a backslash
//! takes the next character literally (but not inside single quotes).

use vstd::prelude::*;
use crate::text::{
    chars_of, is_space, is_space_char, lemma_scan_append_word, string_of, word_scan, words,
};

verus! {

/// Where the splitting of a command line stands.
pub struct SplitState {
    pub args: Seq<Seq<char>>,
    pub current: Seq<char>,
    pub quote: Option<char>,
    pub escaped: bool,
}

/// The effect of one more character.
pub open spec fn split_step(st: SplitState, c: char) -> SplitState {
    if st.escaped {
        SplitState { current: st.current.push(c), escaped: false, ..st }
    } else if c == '\\' && st.quote != Some('\'') {
        SplitState { escaped: true, ..st }
    } else {
        match st.quote {
            Some(q) => if c == q {
                SplitState { quote: None, ..st }
            } else {
                SplitState { current: st.current.push(c), ..st }
            },
            None => if c == '\'' || c == '"' {
                SplitState { quote: Some(c), ..st }
            } else if is_space(c) {
                if st.current.len() > 0 {
                    SplitState { args: st.args.push(st.current), current: seq![], ..st }
                } else {
                    st
                }
            } else {
                SplitState { current: st.current.push(c), ..st }
            },
        }
    }
}

pub open spec fn split_scan(s: Seq<char>) -> SplitState
    decreases s.len(),
{
    if s.len() == 0 {
        SplitState { args: seq![], current: seq![], quote: None, escaped: false }
    } else {
        split_step(split_scan(s.drop_last()), s.last())
    }
}

/// The arguments of a command line; `None` when it ends inside quotes or
/// right after a backslash.
pub open spec fn split_args(s: Seq<char>) -> Option<Seq<Seq<char>>> {
    let st = split_scan(s);
    if st.escaped || st.quote is Some {
        None
    } else if st.current.len() > 0 {
        Some(st.args.push(st.current))
    } else {
        Some(st.args)
    }
}

/// No argument found so far is empty.
proof fn lemma_args_not_empty(s: Seq<char>)
    ensures
        forall|i: int|
            0 <= i < split_scan(s).args.len() ==> (#[trigger] split_scan(s).args[i]).len() > 0,
    decreases s.len(),
{
    if s.len() > 0 {
        lemma_args_not_empty(s.drop_last());
    }
}

/// Splitting never yields an empty argument (`""` alone gives none).
pub proof fn lemma_split_args_not_empty(s: Seq<char>, a: Seq<Seq<char>>)
    requires
        split_args(s) == Some(a),
    ensures
        forall|i: int| 0 <= i < a.len() ==> (#[trigger] a[i]).len() > 0,
{
    lemma_args_not_empty(s);
}

/// A command line without quotes or backslashes splits into its words.
pub proof fn lemma_plain_command_splits_into_words(s: Seq<char>)
    requires
        forall|i: int| 0 <= i < s.len() ==> s[i] != '\\' && s[i] != '\'' && s[i] != '"',
    ensures
        split_args(s) == Some(words(s)),
{
    lemma_plain_scan(s);
}

proof fn lemma_plain_scan(s: Seq<char>)
    requires
        forall|i: int| 0 <= i < s.len() ==> s[i] != '\\' && s[i] != '\'' && s[i] != '"',
    ensures
        split_scan(s).quote is None,
        !split_scan(s).escaped,
        split_scan(s).args == word_scan(s).complete,
        split_scan(s).current == word_scan(s).current,
    decreases s.len(),
{
    if s.len() > 0 {
        lemma_plain_scan(s.drop_last());
    }
}

proof fn lemma_inside_quote(s: Seq<char>, q: char, t: Seq<char>)
    requires
        split_scan(s).quote == Some(q),
        !split_scan(s).escaped,
        forall|i: int| 0 <= i < t.len() ==> #[trigger] t[i] != q && (q == '\'' || t[i] != '\\'),
    ensures
        split_scan(s + t) == (SplitState { current: split_scan(s).current + t, ..split_scan(s) }),
    decreases t.len(),
{
    if t.len() == 0 {
        assert(s + t == s);
        assert(split_scan(s).current + t == split_scan(s).current);
    } else {
        lemma_inside_quote(s, q, t.drop_last());
        assert(forall|i: int| 0 <= i < t.drop_last().len() ==> t.drop_last()[i] == t[i]);
        assert((s + t).drop_last() == s + t.drop_last());
        assert((s + t).last() == t.last());
        let c = t[t.len() - 1];
        assert(c == t.last());
        assert(c != q && (q == '\'' || c != '\\'));
        let mid = split_scan(s + t.drop_last());
        assert(mid.quote == Some(q) && !mid.escaped);
        assert(split_scan(s + t) == split_step(mid, c));
        assert(split_step(mid, c) == (SplitState { current: mid.current.push(c), ..mid }));
        assert(mid.current == split_scan(s).current + t.drop_last());
        assert(mid.current.push(c) =~= split_scan(s).current + t);
    }
}

/// A quoted part, `"..."` or `'...'`, adds its text as written to the
/// current argument: inside double quotes the other quote character and
/// whitespace are plain text, and inside single quotes the backslash is
/// too. Only the quote character that opened the part ends it.
pub proof fn lemma_quoted_part(s: Seq<char>, q: char, t: Seq<char>)
    requires
        split_scan(s).quote is None,
        !split_scan(s).escaped,
        q == '"' || q == '\'',
        forall|i: int| 0 <= i < t.len() ==> #[trigger] t[i] != q && (q == '\'' || t[i] != '\\'),
    ensures
        split_scan(s + seq![q] + t + seq![q]) == (SplitState {
            args: split_scan(s).args,
            current: split_scan(s).current + t,
            quote: None,
            escaped: false,
        }),
{
    let open = s + seq![q];
    assert(open.drop_last() == s);
    assert(open.last() == q);
    assert(split_scan(open).quote == Some(q));
    lemma_inside_quote(open, q, t);
    let body = open + t;
    let all = body + seq![q];
    assert(all.drop_last() == body);
    assert(all.last() == q);
}

/// A plain word.
pub open spec fn is_plain_word(w: Seq<char>) -> bool {
    &&& w.len() > 0
    &&& forall|i: int|
        0 <= i < w.len() ==> !is_space(#[trigger] w[i]) && w[i] != '\\' && w[i] != '\'' && w[i] != '"'
}

/// `a "t"` splits into `a` and `t`, whatever `t` holds but a double quote
/// or a backslash: its spaces and apostrophes stay in it.
pub proof fn lemma_double_quoted_argument(a: Seq<char>, t: Seq<char>)
    requires
        is_plain_word(a),
        t.len() > 0,
        forall|i: int| 0 <= i < t.len() ==> #[trigger] t[i] != '"' && t[i] != '\\',
    ensures
        split_args(a + seq![' '] + seq!['"'] + t + seq!['"']) == Some(seq![a, t]),
{
    lemma_plain_scan(a);
    let e: Seq<char> = seq![];
    lemma_scan_append_word(e, a);
    assert(e + a == a);
    assert(seq![] + a == a);
    let sp = a + seq![' '];
    assert(sp.drop_last() == a);
    assert(sp.last() == ' ');
    assert(split_scan(sp).args == seq![a]);
    assert(split_scan(sp).current.len() == 0);
    lemma_quoted_part(sp, '"', t);
    assert(Seq::<char>::empty() + t == t);
    assert(seq![a].push(t) == seq![a, t]);
}

/// `a 't'` splits into `a` and `t`, whatever `t` holds but an apostrophe:
/// its spaces, double quotes and backslashes stay in it.
pub proof fn lemma_single_quoted_argument(a: Seq<char>, t: Seq<char>)
    requires
        is_plain_word(a),
        t.len() > 0,
        forall|i: int| 0 <= i < t.len() ==> #[trigger] t[i] != '\'',
    ensures
        split_args(a + seq![' '] + seq!['\''] + t + seq!['\'']) == Some(seq![a, t]),
{
    lemma_plain_scan(a);
    let e: Seq<char> = seq![];
    lemma_scan_append_word(e, a);
    assert(e + a == a);
    let sp = a + seq![' '];
    assert(sp.drop_last() == a);
    assert(sp.last() == ' ');
    assert(split_scan(sp).args == seq![a]);
    assert(split_scan(sp).current.len() == 0);
    lemma_quoted_part(sp, '\'', t);
    assert(Seq::<char>::empty() + t == t);
    assert(seq![a].push(t) == seq![a, t]);
}

/// Outside single quotes, a backslash adds the next character, whatever it
/// is, to the current argument.
pub proof fn lemma_escaped_char(s: Seq<char>, x: char)
    requires
        !split_scan(s).escaped,
        split_scan(s).quote != Some('\''),
    ensures
        split_scan(s + seq!['\\', x]) == (SplitState {
            current: split_scan(s).current.push(x),
            ..split_scan(s)
        }),
{
    let a = s + seq!['\\'];
    let b = s + seq!['\\', x];
    assert(a.drop_last() == s);
    assert(a.last() == '\\');
    assert(split_scan(a) == split_step(split_scan(s), '\\'));
    assert(split_scan(a) == (SplitState { escaped: true, ..split_scan(s) }));
    assert(b.drop_last() == a);
    assert(b.last() == x);
    assert(split_scan(b) == split_step(split_scan(a), x));
}

/// A command line that ends inside a quoted part, or right after a
/// backslash, is refused.
pub proof fn lemma_unfinished_command(s: Seq<char>, q: char, t: Seq<char>)
    requires
        split_scan(s).quote is None,
        !split_scan(s).escaped,
        q == '"' || q == '\'',
        forall|i: int| 0 <= i < t.len() ==> #[trigger] t[i] != q && (q == '\'' || t[i] != '\\'),
    ensures
        split_args(s + seq![q] + t) is None,
        split_args(s + seq!['\\']) is None,
{
    let open = s + seq![q];
    assert(open.drop_last() == s);
    assert(open.last() == q);
    lemma_inside_quote(open, q, t);
    let b = s + seq!['\\'];
    assert(b.drop_last() == s);
    assert(b.last() == '\\');
}

/// Splits a command line into its arguments; `None` when it ends inside
/// quotes or right after a backslash. No argument is empty.
pub fn split_command(command: &str) -> (r: Option<Vec<String>>)
    ensures
        match r {
            Some(a) => split_args(command@) == Some(a@.map_values(|x: String| x@)),
            None => split_args(command@) is None,
        },
        r matches Some(a) ==> forall|i: int| 0 <= i < a@.len() ==> (#[trigger] a@[i])@.len() > 0,
{
    let s = chars_of(command);
    let mut args: Vec<String> = Vec::new();
    let mut current: Vec<char> = Vec::new();
    let mut quote: Option<char> = None;
    let mut escaped = false;
    let mut i: usize = 0;
    while i < s.len()
        invariant
            i <= s.len(),
            s@ == command@,
            args@.map_values(|x: String| x@) == split_scan(s@.take(i as int)).args,
            current@ == split_scan(s@.take(i as int)).current,
            quote == split_scan(s@.take(i as int)).quote,
            escaped == split_scan(s@.take(i as int)).escaped,
        decreases s.len() - i,
    {
        assert(s@.take(i + 1).drop_last() == s@.take(i as int));
        let c: char = s[i];
        if escaped {
            current.push(c);
            escaped = false;
        } else if c == '\\' && quote != Some('\'') {
            escaped = true;
        } else if let Some(q) = quote {
            if c == q {
                quote = None;
            } else {
                current.push(c);
            }
        } else if c == '\'' || c == '"' {
            quote = Some(c);
        } else if is_space_char(c) {
            if current.len() > 0 {
                let ghost before = args@;
                args.push(string_of(&current));
                assert(args@.map_values(|x: String| x@) =~= before.map_values(|x: String| x@).push(
                    current@,
                ));
                current = Vec::new();
            }
        } else {
            current.push(c);
        }
        i = i + 1;
    }
    assert(s@.take(s.len() as int) == s@);
    if escaped || quote.is_some() {
        return None;
    }
    if current.len() > 0 {
        let ghost before = args@;
        args.push(string_of(&current));
        assert(args@.map_values(|x: String| x@) =~= before.map_values(|x: String| x@).push(current@));
    }
    assert(split_args(command@) == Some(args@.map_values(|x: String| x@)));
    assert forall|k: int| 0 <= k < args@.len() implies (#[trigger] args@[k])@.len() > 0 by {
        let a = args@.map_values(|x: String| x@);
        lemma_split_args_not_empty(command@, a);
        assert(a[k] == args@[k]@);
        assert(a[k].len() > 0);
    }
    Some(args)
}

} // verus!
