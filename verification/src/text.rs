//! Character-level text helpers: whitespace, trimming, line splitting,
//! searching, joining and replacement, stated over `Seq<char>`.

use vstd::prelude::*;

verus! {

// ---------------------------------------------------------------------------
// Specifications
// ---------------------------------------------------------------------------

/// Unicode `White_Space`, the property that `char::is_whitespace` tests.
pub open spec fn is_space(c: char) -> bool {
    let n: u32 = c as u32;
    ||| 9 <= n <= 13
    ||| n == 32
    ||| n == 0x85
    ||| n == 0xA0
    ||| n == 0x1680
    ||| 0x2000 <= n <= 0x200A
    ||| n == 0x2028
    ||| n == 0x2029
    ||| n == 0x202F
    ||| n == 0x205F
    ||| n == 0x3000
}

/// `s` without its leading whitespace.
pub open spec fn trim_start(s: Seq<char>) -> Seq<char>
    decreases s.len(),
{
    if s.len() > 0 && is_space(s[0]) {
        trim_start(s.drop_first())
    } else {
        s
    }
}

/// `s` without its trailing whitespace.
pub open spec fn trim_end(s: Seq<char>) -> Seq<char>
    decreases s.len(),
{
    if s.len() > 0 && is_space(s.last()) {
        trim_end(s.drop_last())
    } else {
        s
    }
}

/// `s` without leading and trailing whitespace (`str::trim`).
pub open spec fn trim(s: Seq<char>) -> Seq<char> {
    trim_end(trim_start(s))
}

pub open spec fn starts_with(s: Seq<char>, p: Seq<char>) -> bool {
    p.len() <= s.len() && s.take(p.len() as int) == p
}

pub open spec fn ends_with(s: Seq<char>, p: Seq<char>) -> bool {
    p.len() <= s.len() && s.skip(s.len() - p.len()) == p
}

/// `k` is the position of the first `c` in `s`.
pub open spec fn is_first(s: Seq<char>, c: char, k: int) -> bool {
    &&& 0 <= k < s.len()
    &&& s[k] == c
    &&& forall|j: int| 0 <= j < k ==> s[j] != c
}

/// The position of the first `c` in `s`, if any (`str::find` with a char).
pub open spec fn first_index(s: Seq<char>, c: char) -> Option<int> {
    if exists|k: int| is_first(s, c, k) {
        Some(choose|k: int| is_first(s, c, k))
    } else {
        None
    }
}

/// `s` cut at its first `c`, the `c` itself dropped (`str::split_once`).
pub open spec fn split_once(s: Seq<char>, c: char) -> Option<(Seq<char>, Seq<char>)> {
    match first_index(s, c) {
        Some(k) => Some((s.take(k), s.skip(k + 1))),
        None => None,
    }
}

/// A line without the `'\r'` that ends it, if any.
pub open spec fn strip_cr(p: Seq<char>) -> Seq<char> {
    if p.len() > 0 && p.last() == '\r' {
        p.drop_last()
    } else {
        p
    }
}

/// The lines completed so far while reading `s`, and the line being read.
pub struct LineScan {
    pub complete: Seq<Seq<char>>,
    pub current: Seq<char>,
}

pub open spec fn line_scan(s: Seq<char>) -> LineScan
    decreases s.len(),
{
    if s.len() == 0 {
        LineScan { complete: seq![], current: seq![] }
    } else {
        let p = line_scan(s.drop_last());
        if s.last() == '\n' {
            LineScan { complete: p.complete.push(strip_cr(p.current)), current: seq![] }
        } else {
            LineScan { complete: p.complete, current: p.current.push(s.last()) }
        }
    }
}

/// The lines of `s` as `str::lines` yields them: split at `'\n'`, a `'\r'`
/// just before a `'\n'` dropped, and no empty line after a final `'\n'`.
pub open spec fn lines(s: Seq<char>) -> Seq<Seq<char>> {
    let p = line_scan(s);
    if p.current.len() == 0 {
        p.complete
    } else {
        p.complete.push(p.current)
    }
}

/// The words of `s` between runs of whitespace, as `str::split_whitespace`
/// yields them: completed words so far and the word being read.
pub open spec fn word_scan(s: Seq<char>) -> LineScan
    decreases s.len(),
{
    if s.len() == 0 {
        LineScan { complete: seq![], current: seq![] }
    } else {
        let p = word_scan(s.drop_last());
        if is_space(s.last()) {
            if p.current.len() == 0 {
                p
            } else {
                LineScan { complete: p.complete.push(p.current), current: seq![] }
            }
        } else {
            LineScan { complete: p.complete, current: p.current.push(s.last()) }
        }
    }
}

pub open spec fn words(s: Seq<char>) -> Seq<Seq<char>> {
    let p = word_scan(s);
    if p.current.len() == 0 {
        p.complete
    } else {
        p.complete.push(p.current)
    }
}

/// The parts joined with `sep` between each two (`[..].join(sep)`).
pub open spec fn join(parts: Seq<Seq<char>>, sep: Seq<char>) -> Seq<char>
    decreases parts.len(),
{
    if parts.len() == 0 {
        seq![]
    } else if parts.len() == 1 {
        parts[0]
    } else {
        join(parts.drop_last(), sep) + sep + parts.last()
    }
}

/// Every non-overlapping occurrence of `p` in `s`, from the left, replaced
/// by `w` (`str::replace`, for a pattern that is not empty).
pub open spec fn replace(s: Seq<char>, p: Seq<char>, w: Seq<char>) -> Seq<char>
    decreases s.len(),
{
    if p.len() == 0 || s.len() == 0 {
        s
    } else if starts_with(s, p) {
        w + replace(s.skip(p.len() as int), p, w)
    } else {
        seq![s[0]] + replace(s.drop_first(), p, w)
    }
}

// ---------------------------------------------------------------------------
// Lemmas
// ---------------------------------------------------------------------------

pub proof fn lemma_first_index(s: Seq<char>, c: char, k: int)
    requires
        is_first(s, c, k),
    ensures
        first_index(s, c) == Some(k),
{
    let w: int = choose|k: int| is_first(s, c, k);
    assert(is_first(s, c, w));
    if w < k {
        assert(s[w] != c);
    } else if k < w {
        assert(s[k] != c);
    }
}

/// `replace` leaves a text without the pattern unchanged.
pub proof fn lemma_replace_absent(s: Seq<char>, p: Seq<char>, w: Seq<char>)
    requires
        forall|i: int| 0 <= i <= s.len() ==> !starts_with(#[trigger] s.skip(i), p),
    ensures
        replace(s, p, w) == s,
    decreases s.len(),
{
    if p.len() == 0 || s.len() == 0 {
    } else {
        assert(s.skip(0) == s);
        assert forall|i: int| 0 <= i <= s.drop_first().len() implies !starts_with(
            #[trigger] s.drop_first().skip(i),
            p,
        ) by {
            assert(s.drop_first().skip(i) == s.skip(i + 1));
        }
        lemma_replace_absent(s.drop_first(), p, w);
        assert(seq![s[0]] + s.drop_first() == s);
    }
}

proof fn lemma_trim_start_shape(s: Seq<char>) -> (a: int)
    ensures
        0 <= a <= s.len(),
        trim_start(s) == s.skip(a),
        forall|i: int| 0 <= i < a ==> is_space(#[trigger] s[i]),
        a < s.len() ==> !is_space(s[a]),
    decreases s.len(),
{
    if s.len() > 0 && is_space(s[0]) {
        let a = lemma_trim_start_shape(s.drop_first());
        assert(s.drop_first().skip(a) == s.skip(a + 1));
        assert forall|i: int| 0 <= i < a + 1 implies is_space(#[trigger] s[i]) by {
            if i > 0 {
                assert(s[i] == s.drop_first()[i - 1]);
            }
        }
        a + 1
    } else {
        assert(s.skip(0) == s);
        0
    }
}

proof fn lemma_trim_end_shape(s: Seq<char>) -> (b: int)
    ensures
        0 <= b <= s.len(),
        trim_end(s) == s.take(b),
        forall|i: int| b <= i < s.len() ==> is_space(#[trigger] s[i]),
        b > 0 ==> !is_space(s[b - 1]),
    decreases s.len(),
{
    if s.len() > 0 && is_space(s.last()) {
        let b = lemma_trim_end_shape(s.drop_last());
        assert(s.drop_last().take(b) == s.take(b));
        assert forall|i: int| b <= i < s.len() implies is_space(#[trigger] s[i]) by {
            if i < s.len() - 1 {
                assert(s[i] == s.drop_last()[i]);
            }
        }
        b
    } else {
        assert(s.take(s.len() as int) == s);
        s.len() as int
    }
}

/// Trimming cuts whitespace off both ends and nothing else: the result is
/// a piece of `s` with whitespace only before and after it, and it neither
/// begins nor ends with whitespace.
pub proof fn lemma_trim_shape(s: Seq<char>)
    ensures
        trim(s).len() > 0 ==> !is_space(trim(s)[0]) && !is_space(trim(s).last()),
        exists|a: int, b: int|
            0 <= a <= b <= s.len() && trim(s) == s.subrange(a, b) && (forall|i: int|
                0 <= i < a ==> is_space(#[trigger] s[i])) && (forall|i: int|
                b <= i < s.len() ==> is_space(#[trigger] s[i])),
{
    let a = lemma_trim_start_shape(s);
    let t = s.skip(a);
    let b = lemma_trim_end_shape(t);
    assert(trim(s) == t.take(b));
    assert(t.take(b) == s.subrange(a, a + b));
    assert forall|i: int| a + b <= i < s.len() implies is_space(#[trigger] s[i]) by {
        assert(s[i] == t[i - a]);
    }
    if trim(s).len() > 0 {
        assert(trim(s)[0] == s[a]);
        assert(trim(s).last() == t[b - 1]);
    }
}

/// A line ended by `"\r\n"` and the same line ended by `"\n"` read the
/// same: one more line, without its line ending (a line that itself ends
/// in `\r` loses that `\r` before a `\n`).
pub proof fn lemma_line_endings(c: Seq<char>, l: Seq<char>)
    requires
        c.len() == 0 || c.last() == '\n',
        forall|i: int| 0 <= i < l.len() ==> #[trigger] l[i] != '\n',
    ensures
        l.len() == 0 || l.last() != '\r' ==> lines(c + l + seq!['\n']) == lines(c).push(l),
        lines(c + l + seq!['\r', '\n']) == lines(c).push(l),
{
    lemma_line_scan_append(c, l);
    assert(line_scan(c).current.len() == 0);
    assert(Seq::<char>::empty() + l == l);
    let a = c + l + seq!['\n'];
    assert(a.drop_last() == c + l);
    assert(a.last() == '\n');
    let lr = l + seq!['\r'];
    assert forall|i: int| 0 <= i < lr.len() implies #[trigger] lr[i] != '\n' by {
        if i < l.len() {
            assert(lr[i] == l[i]);
        }
    }
    lemma_line_scan_append(c, lr);
    assert(Seq::<char>::empty() + lr == lr);
    let b = c + l + seq!['\r', '\n'];
    assert(b.drop_last() == c + lr);
    assert(b.last() == '\n');
    assert(lr.drop_last() == l);
    assert(strip_cr(lr) == l);
}

/// A word: not empty, without whitespace.
pub open spec fn is_word(w: Seq<char>) -> bool {
    w.len() > 0 && forall|j: int| 0 <= j < w.len() ==> !is_space(#[trigger] w[j])
}

proof fn lemma_word_scan_words(s: Seq<char>)
    ensures
        forall|i: int|
            0 <= i < word_scan(s).complete.len() ==> is_word(#[trigger] word_scan(s).complete[i]),
        forall|j: int|
            0 <= j < word_scan(s).current.len() ==> !is_space(#[trigger] word_scan(s).current[j]),
    decreases s.len(),
{
    if s.len() > 0 {
        let q = word_scan(s.drop_last());
        lemma_word_scan_words(s.drop_last());
        let r = word_scan(s);
        if is_space(s.last()) {
            if q.current.len() > 0 {
                assert forall|i: int| 0 <= i < r.complete.len() implies is_word(
                    #[trigger] r.complete[i],
                ) by {
                    if i < q.complete.len() {
                        assert(r.complete[i] == q.complete[i]);
                    } else {
                        assert(r.complete[i] == q.current);
                    }
                }
            }
        } else {
            assert forall|j: int| 0 <= j < r.current.len() implies !is_space(
                #[trigger] r.current[j],
            ) by {
                if j < q.current.len() {
                    assert(r.current[j] == q.current[j]);
                }
            }
        }
    }
}

/// What `words` yields are words.
pub proof fn lemma_words_are_words(s: Seq<char>)
    ensures
        forall|i: int| 0 <= i < words(s).len() ==> is_word(#[trigger] words(s)[i]),
{
    lemma_word_scan_words(s);
}

pub proof fn lemma_scan_append_word(s: Seq<char>, w: Seq<char>)
    requires
        forall|j: int| 0 <= j < w.len() ==> !is_space(#[trigger] w[j]),
    ensures
        word_scan(s + w).complete == word_scan(s).complete,
        word_scan(s + w).current == word_scan(s).current + w,
    decreases w.len(),
{
    if w.len() == 0 {
        assert(s + w == s);
    } else {
        lemma_scan_append_word(s, w.drop_last());
        assert((s + w).drop_last() == s + w.drop_last());
        assert((s + w).last() == w.last());
        assert(word_scan(s).current + w.drop_last() + seq![w.last()] == word_scan(s).current + w);
    }
}

proof fn lemma_scan_join(ws: Seq<Seq<char>>)
    requires
        ws.len() > 0,
        forall|i: int| 0 <= i < ws.len() ==> is_word(#[trigger] ws[i]),
    ensures
        word_scan(join(ws, seq![' '])).complete == ws.drop_last(),
        word_scan(join(ws, seq![' '])).current == ws.last(),
    decreases ws.len(),
{
    let e: Seq<char> = seq![];
    if ws.len() == 1 {
        assert(is_word(ws[0]));
        lemma_scan_append_word(e, ws[0]);
        assert(e + ws[0] == ws[0]);
        assert(word_scan(e).current + ws[0] == ws[0]);
        assert(ws.drop_last() == Seq::<Seq<char>>::empty());
    } else {
        let p = ws.drop_last();
        assert forall|i: int| 0 <= i < p.len() implies is_word(#[trigger] p[i]) by {
            assert(p[i] == ws[i]);
        }
        lemma_scan_join(p);
        let x = join(p, seq![' ']);
        let xs = x + seq![' '];
        assert(xs.drop_last() == x);
        assert(xs.last() == ' ');
        assert(is_word(p.last()));
        assert(is_word(ws.last()));
        lemma_scan_append_word(xs, ws.last());
        assert(join(ws, seq![' ']) == xs + ws.last());
        assert(ws.drop_last() == p);
        assert(word_scan(xs).complete == p.drop_last().push(p.last()));
        assert(p.drop_last().push(p.last()) == p);
        assert(seq![] + ws.last() == ws.last());
    }
}

/// Joining words with single spaces and splitting the result into words
/// gives the words back.
pub proof fn lemma_words_of_join(ws: Seq<Seq<char>>)
    requires
        forall|i: int| 0 <= i < ws.len() ==> is_word(#[trigger] ws[i]),
    ensures
        words(join(ws, seq![' '])) == ws,
{
    if ws.len() > 0 {
        lemma_scan_join(ws);
        assert(is_word(ws.last()));
        assert(ws.drop_last().push(ws.last()) == ws);
    }
}

proof fn lemma_line_scan_append(c: Seq<char>, l: Seq<char>)
    requires
        forall|i: int| 0 <= i < l.len() ==> #[trigger] l[i] != '\n',
    ensures
        line_scan(c + l).complete == line_scan(c).complete,
        line_scan(c + l).current == line_scan(c).current + l,
    decreases l.len(),
{
    if l.len() == 0 {
        assert(c + l == c);
    } else {
        lemma_line_scan_append(c, l.drop_last());
        assert((c + l).drop_last() == c + l.drop_last());
        assert((c + l).last() == l.last());
        assert(l[l.len() - 1] != '\n');
        assert(line_scan(c).current + l.drop_last() + seq![l.last()] == line_scan(c).current + l);
    }
}

/// A line without a newline, written after text that ends a line (or
/// after nothing), becomes one more line.
pub proof fn lemma_lines_push(c: Seq<char>, l: Seq<char>)
    requires
        c.len() == 0 || c.last() == '\n',
        l.len() > 0,
        forall|i: int| 0 <= i < l.len() ==> #[trigger] l[i] != '\n',
    ensures
        lines(c + l) == lines(c).push(l),
{
    lemma_line_scan_append(c, l);
    assert(line_scan(c).current.len() == 0);
    assert(Seq::<char>::empty() + l == l);
}

// ---------------------------------------------------------------------------
// Executable helpers
// ---------------------------------------------------------------------------

/// Appends one character to a string (`String::push`).
/// Trusted: the new contents are the old contents followed by `c`.
#[verifier::external_body]
fn push_char(s: &mut String, c: char)
    ensures
        final(s)@ == old(s)@.push(c),
{
    s.push(c);
}

/// The characters of a string, in order.
pub fn chars_of(s: &str) -> (r: Vec<char>)
    ensures
        r@ == s@,
{
    let mut r: Vec<char> = Vec::new();
    for c in it: s.chars()
        invariant
            r@ == it.seq().take(it.index() as int),
            it.seq() == s@,
    {
        r.push(c);
    }
    r
}

/// A string holding exactly the given characters.
pub fn string_of(v: &Vec<char>) -> (r: String)
    ensures
        r@ == v@,
{
    let mut r = String::new();
    let mut i: usize = 0;
    while i < v.len()
        invariant
            i <= v.len(),
            r@ == v@.take(i as int),
        decreases v.len() - i,
    {
        push_char(&mut r, v[i]);
        assert(v@.take(i + 1) == v@.take(i as int).push(v@[i as int]));
        i = i + 1;
    }
    assert(v@.take(v.len() as int) == v@);
    r
}

pub fn is_space_char(c: char) -> (r: bool)
    ensures
        r == is_space(c),
{
    let n: u32 = c as u32;
    (9 <= n && n <= 13) || n == 32 || n == 0x85 || n == 0xA0 || n == 0x1680 || (0x2000 <= n && n
        <= 0x200A) || n == 0x2028 || n == 0x2029 || n == 0x202F || n == 0x205F || n == 0x3000
}

/// The characters of `s` from `lo` up to `hi`.
pub fn slice_of(s: &Vec<char>, lo: usize, hi: usize) -> (r: Vec<char>)
    requires
        lo <= hi <= s.len(),
    ensures
        r@ == s@.subrange(lo as int, hi as int),
{
    let mut r: Vec<char> = Vec::new();
    let mut i: usize = lo;
    while i < hi
        invariant
            lo <= i <= hi <= s.len(),
            r@ == s@.subrange(lo as int, i as int),
        decreases hi - i,
    {
        r.push(s[i]);
        assert(s@.subrange(lo as int, i + 1) == s@.subrange(lo as int, i as int).push(s@[i as int]));
        i = i + 1;
    }
    r
}

/// Whether two character sequences are equal.
pub fn same(a: &Vec<char>, b: &Vec<char>) -> (r: bool)
    ensures
        r == (a@ == b@),
{
    if a.len() != b.len() {
        return false;
    }
    let mut i: usize = 0;
    while i < a.len()
        invariant
            a.len() == b.len(),
            i <= a.len(),
            forall|j: int| 0 <= j < i ==> a@[j] == b@[j],
        decreases a.len() - i,
    {
        if a[i] != b[i] {
            return false;
        }
        i = i + 1;
    }
    assert(a@ == b@);
    true
}

/// Whether `s` holds exactly the characters of `lit`.
pub fn is_text(s: &Vec<char>, lit: &str) -> (r: bool)
    ensures
        r == (s@ == lit@),
{
    let l = chars_of(lit);
    same(s, &l)
}

/// Whether `s` begins with `p`.
pub fn has_prefix(s: &Vec<char>, p: &Vec<char>) -> (r: bool)
    ensures
        r == starts_with(s@, p@),
{
    if p.len() > s.len() {
        return false;
    }
    let mut i: usize = 0;
    while i < p.len()
        invariant
            p.len() <= s.len(),
            i <= p.len(),
            forall|j: int| 0 <= j < i ==> s@[j] == p@[j],
        decreases p.len() - i,
    {
        if s[i] != p[i] {
            assert(s@.take(p.len() as int)[i as int] != p@[i as int]);
            return false;
        }
        i = i + 1;
    }
    assert(s@.take(p.len() as int) == p@);
    true
}

/// Whether `s` ends with `p`.
pub fn has_suffix(s: &Vec<char>, p: &Vec<char>) -> (r: bool)
    ensures
        r == ends_with(s@, p@),
{
    if p.len() > s.len() {
        return false;
    }
    let d: usize = s.len() - p.len();
    let mut i: usize = 0;
    while i < p.len()
        invariant
            p.len() <= s.len(),
            d == s.len() - p.len(),
            i <= p.len(),
            forall|j: int| 0 <= j < i ==> s@[d + j] == p@[j],
        decreases p.len() - i,
    {
        if s[d + i] != p[i] {
            assert(s@.skip(d as int)[i as int] != p@[i as int]);
            return false;
        }
        i = i + 1;
    }
    assert(s@.skip(d as int) == p@);
    true
}

/// The position of the first `c` in `s`, if any.
pub fn find_char(s: &Vec<char>, c: char) -> (r: Option<usize>)
    ensures
        r matches Some(k) ==> k < s.len() && first_index(s@, c) == Some(k as int) && is_first(
            s@,
            c,
            k as int,
        ),
        r is None ==> first_index(s@, c) is None,
{
    let mut i: usize = 0;
    while i < s.len()
        invariant
            i <= s.len(),
            forall|j: int| 0 <= j < i ==> s@[j] != c,
        decreases s.len() - i,
    {
        if s[i] == c {
            proof {
                lemma_first_index(s@, c, i as int);
            }
            return Some(i);
        }
        i = i + 1;
    }
    None
}

/// `s` without leading and trailing whitespace.
pub fn trim_chars(s: &Vec<char>) -> (r: Vec<char>)
    ensures
        r@ == trim(s@),
{
    let mut lo: usize = 0;
    assert(s@.skip(0) == s@);
    while lo < s.len() && is_space_char(s[lo])
        invariant
            lo <= s.len(),
            trim_start(s@) == trim_start(s@.skip(lo as int)),
        decreases s.len() - lo,
    {
        assert(s@.skip(lo as int).drop_first() == s@.skip(lo + 1));
        lo = lo + 1;
    }
    assert(trim_start(s@) == s@.skip(lo as int));
    let mut hi: usize = s.len();
    assert(s@.skip(lo as int) == s@.subrange(lo as int, hi as int));
    while hi > lo && is_space_char(s[hi - 1])
        invariant
            lo <= hi <= s.len(),
            trim(s@) == trim_end(s@.subrange(lo as int, hi as int)),
        decreases hi,
    {
        assert(s@.subrange(lo as int, hi as int).drop_last() == s@.subrange(lo as int, hi - 1));
        hi = hi - 1;
    }
    slice_of(s, lo, hi)
}

/// The lines of `s`, as `str::lines` yields them.
pub fn lines_of(s: &Vec<char>) -> (r: Vec<Vec<char>>)
    ensures
        r@.len() == lines(s@).len(),
        forall|i: int| 0 <= i < r@.len() ==> #[trigger] r@[i]@ == lines(s@)[i],
{
    let mut done: Vec<Vec<char>> = Vec::new();
    let mut cur: Vec<char> = Vec::new();
    let mut i: usize = 0;
    while i < s.len()
        invariant
            i <= s.len(),
            done@.len() == line_scan(s@.take(i as int)).complete.len(),
            forall|j: int|
                0 <= j < done@.len() ==> #[trigger] done@[j]@ == line_scan(
                    s@.take(i as int),
                ).complete[j],
            cur@ == line_scan(s@.take(i as int)).current,
        decreases s.len() - i,
    {
        assert(s@.take(i + 1).drop_last() == s@.take(i as int));
        let c: char = s[i];
        if c == '\n' {
            if cur.len() > 0 && cur[cur.len() - 1] == '\r' {
                cur.pop();
            }
            done.push(cur);
            cur = Vec::new();
        } else {
            cur.push(c);
        }
        i = i + 1;
    }
    assert(s@.take(s.len() as int) == s@);
    if cur.len() > 0 {
        done.push(cur);
    }
    done
}

/// The words of `s` between runs of whitespace.
pub fn words_of(s: &Vec<char>) -> (r: Vec<Vec<char>>)
    ensures
        r@.len() == words(s@).len(),
        forall|i: int| 0 <= i < r@.len() ==> #[trigger] r@[i]@ == words(s@)[i],
{
    let mut done: Vec<Vec<char>> = Vec::new();
    let mut cur: Vec<char> = Vec::new();
    let mut i: usize = 0;
    while i < s.len()
        invariant
            i <= s.len(),
            done@.len() == word_scan(s@.take(i as int)).complete.len(),
            forall|j: int|
                0 <= j < done@.len() ==> #[trigger] done@[j]@ == word_scan(
                    s@.take(i as int),
                ).complete[j],
            cur@ == word_scan(s@.take(i as int)).current,
        decreases s.len() - i,
    {
        assert(s@.take(i + 1).drop_last() == s@.take(i as int));
        let c: char = s[i];
        if is_space_char(c) {
            if cur.len() > 0 {
                done.push(cur);
                cur = Vec::new();
            }
        } else {
            cur.push(c);
        }
        i = i + 1;
    }
    assert(s@.take(s.len() as int) == s@);
    if cur.len() > 0 {
        done.push(cur);
    }
    done
}

/// The parts joined with `sep` between each two.
pub fn join_chars(parts: &Vec<Vec<char>>, sep: &Vec<char>) -> (r: Vec<char>)
    ensures
        r@ == join(parts@.map_values(|p: Vec<char>| p@), sep@),
{
    let ghost ps = parts@.map_values(|p: Vec<char>| p@);
    let mut r: Vec<char> = Vec::new();
    let mut i: usize = 0;
    while i < parts.len()
        invariant
            i <= parts.len(),
            ps == parts@.map_values(|p: Vec<char>| p@),
            r@ == join(ps.take(i as int), sep@),
        decreases parts.len() - i,
    {
        assert(ps.take(i + 1).drop_last() == ps.take(i as int));
        if i > 0 {
            append(&mut r, sep);
        }
        append(&mut r, &parts[i]);
        proof {
            if i == 0 {
                assert(r@ == ps.take(1)[0]);
            }
        }
        i = i + 1;
    }
    assert(ps.take(parts.len() as int) == ps);
    r
}

/// Appends the characters of `t` to `r`.
pub fn append(r: &mut Vec<char>, t: &Vec<char>)
    ensures
        final(r)@ == old(r)@ + t@,
{
    let mut i: usize = 0;
    while i < t.len()
        invariant
            i <= t.len(),
            r@ == old(r)@ + t@.take(i as int),
        decreases t.len() - i,
    {
        r.push(t[i]);
        assert(t@.take(i + 1) == t@.take(i as int).push(t@[i as int]));
        i = i + 1;
    }
    assert(t@.take(t.len() as int) == t@);
}

/// Every non-overlapping occurrence of `p` in `s` replaced by `w`.
pub fn replace_chars(s: &Vec<char>, p: &Vec<char>, w: &Vec<char>) -> (r: Vec<char>)
    requires
        p.len() > 0,
    ensures
        r@ == replace(s@, p@, w@),
{
    let mut r: Vec<char> = Vec::new();
    let mut i: usize = 0;
    assert(s@.skip(0) == s@);
    while i < s.len()
        invariant
            i <= s.len(),
            p.len() > 0,
            replace(s@, p@, w@) == r@ + replace(s@.skip(i as int), p@, w@),
        decreases s.len() - i,
    {
        let rest = slice_of(s, i, s.len());
        assert(rest@ == s@.skip(i as int));
        if has_prefix(&rest, p) {
            append(&mut r, w);
            assert(s@.skip(i as int).skip(p.len() as int) == s@.skip(i + p.len()));
            i = i + p.len();
        } else {
            r.push(s[i]);
            assert(s@.skip(i as int).drop_first() == s@.skip(i + 1));
            i = i + 1;
        }
    }
    assert(s@.skip(s.len() as int).len() == 0);
    r
}

} // verus!
