//! The `{{name}}` placeholder grammar of catalog strings.
//!
//! A placeholder is `{{`, optional whitespace, a run of one or more word
//! characters (the name), optional whitespace, and `}}`. Text is scanned left to
//! right and a placeholder is taken at the first position where one starts;
//! scanning resumes right after it. Single braces are ordinary text. In the
//! strict form (used on already-normalized strings) no whitespace is allowed.

use vstd::prelude::*;
use crate::text::{chars_of, push_char, push_chars, string_of, subchars};

verus! {

/// Whether a character beyond ASCII is a Unicode word character (`\w` of the
/// regex crate's syntax).
pub uninterp spec fn unicode_word(c: char) -> bool;

/// An ASCII word character: a letter, a digit or `_`.
pub open spec fn ascii_word(c: char) -> bool {
    ||| 'a' <= c <= 'z'
    ||| 'A' <= c <= 'Z'
    ||| '0' <= c <= '9'
    ||| c == '_'
}

/// Whether `c` is a word character (`\w`): an ASCII letter, digit or `_`, or
/// a Unicode word character beyond ASCII.
pub open spec fn word_char(c: char) -> bool {
    if (c as u32) < 128 {
        ascii_word(c)
    } else {
        unicode_word(c)
    }
}

/// Whether `c` has the Unicode `White_Space` property (`\s`): tab through
/// carriage return, space, next line, no-break space, ogham space mark, the
/// spaces from en quad to hair space, the line and paragraph separators, narrow
/// no-break space, medium mathematical space and ideographic space.
pub open spec fn unicode_space(c: char) -> bool {
    let n = c as u32;
    ||| 0x9 <= n <= 0xD
    ||| n == 0x20
    ||| n == 0x85
    ||| n == 0xA0
    ||| n == 0x1680
    ||| 0x2000 <= n <= 0x200A
    ||| n == 0x2028
    ||| n == 0x2029
    ||| n == 0x202F
    ||| n == 0x205F
    ||| n == 0x3000
}

/// Calls `regex_syntax::is_word_character`, which answers whether `c` is in
/// `Alphabetic`, `Join_Control`, `Decimal_Number`, `Mark` or
/// `Connector_Punctuation`. Its source answers ASCII letters, digits and `_`
/// at once and looks every other character up in a table whose only ASCII
/// entries are those; the contract states the ASCII answer and names the rest.
#[verifier::external_body]
pub(crate) fn is_word_char(c: char) -> (r: bool)
    ensures
        (c as u32) < 128 ==> r == ascii_word(c),
        (c as u32) >= 128 ==> r == unicode_word(c),
{
    regex_syntax::is_word_character(c)
}

/// Calls `char::is_whitespace`, which answers whether `c` has the Unicode
/// `White_Space` property.
#[verifier::external_body]
pub(crate) fn is_space_char(c: char) -> (r: bool)
    ensures
        r == unicode_space(c),
{
    c.is_whitespace()
}

/// Length of the run of word characters starting at `i`.
pub open spec fn word_run(s: Seq<char>, i: int) -> nat
    decreases s.len() - i,
{
    if 0 <= i < s.len() && word_char(s[i]) {
        1 + word_run(s, i + 1)
    } else {
        0
    }
}

/// Length of the run of whitespace characters starting at `i`.
pub open spec fn space_run(s: Seq<char>, i: int) -> nat
    decreases s.len() - i,
{
    if 0 <= i < s.len() && unicode_space(s[i]) {
        1 + space_run(s, i + 1)
    } else {
        0
    }
}

/// The placeholder starting at `i`, as (name start, name end, end); `loose`
/// allows whitespace around the name.
pub open spec fn placeholder_at(s: Seq<char>, i: int, loose: bool) -> Option<(int, int, int)> {
    if 0 <= i && i + 1 < s.len() && s[i] == '{' && s[i + 1] == '{' {
        let a = if loose {
            i + 2 + space_run(s, i + 2)
        } else {
            i + 2
        };
        let b = a + word_run(s, a);
        let c = if loose {
            b + space_run(s, b)
        } else {
            b
        };
        if b > a && c + 1 < s.len() && s[c] == '}' && s[c + 1] == '}' {
            Some((a, b, c + 2))
        } else {
            None
        }
    } else {
        None
    }
}

/// The names of the placeholders of `s` from position `i` on, in order.
pub open spec fn names_from(s: Seq<char>, i: int, loose: bool) -> Seq<Seq<char>>
    decreases s.len() - i,
{
    if i < 0 || i >= s.len() {
        Seq::empty()
    } else {
        match placeholder_at(s, i, loose) {
            Some((a, b, e)) => seq![s.subrange(a, b)] + names_from(s, e, loose),
            None => names_from(s, i + 1, loose),
        }
    }
}

/// `s` from position `i` on, with every placeholder rewritten to `{{f(name)}}`.
pub open spec fn rewrite_from(s: Seq<char>, i: int, loose: bool, f: spec_fn(Seq<char>) -> Seq<char>) -> Seq<char>
    decreases s.len() - i,
{
    if i < 0 || i >= s.len() {
        Seq::empty()
    } else {
        match placeholder_at(s, i, loose) {
            Some((a, b, e)) => seq!['{', '{'] + f(s.subrange(a, b)) + seq!['}', '}'] + rewrite_from(
                s,
                e,
                loose,
                f,
            ),
            None => seq![s[i]] + rewrite_from(s, i + 1, loose, f),
        }
    }
}

/// The placeholder names of `s`, in order of appearance.
pub open spec fn placeholder_names_spec(s: Seq<char>) -> Seq<Seq<char>> {
    names_from(s, 0, true)
}

/// `s` with every placeholder written in the canonical `{{name}}` form.
pub open spec fn normalize_spec(s: Seq<char>) -> Seq<char> {
    rewrite_from(s, 0, true, |n: Seq<char>| n)
}

/// First occurrences only, in order.
pub open spec fn dedup(s: Seq<Seq<char>>) -> Seq<Seq<char>>
    decreases s.len(),
{
    if s.len() == 0 {
        Seq::empty()
    } else {
        let d = dedup(s.drop_last());
        if d.contains(s.last()) {
            d
        } else {
            d.push(s.last())
        }
    }
}

fn word_run_exec(v: &Vec<char>, i: usize) -> (r: usize)
    ensures
        r == i + word_run(v@, i as int),
{
    let mut j = i;
    proof {
        lemma_word_run_past(v@, i as int);
    }
    while j < v.len() && is_word_char(v[j])
        invariant
            i <= j,
            word_run(v@, i as int) == (j - i) + word_run(v@, j as int),
            j > v@.len() ==> word_run(v@, j as int) == 0,
        decreases v@.len() - j,
    {
        j = j + 1;
    }
    j
}

fn space_run_exec(v: &Vec<char>, i: usize) -> (r: usize)
    ensures
        r == i + space_run(v@, i as int),
{
    let mut j = i;
    proof {
        lemma_space_run_past(v@, i as int);
    }
    while j < v.len() && is_space_char(v[j])
        invariant
            i <= j,
            space_run(v@, i as int) == (j - i) + space_run(v@, j as int),
            j > v@.len() ==> space_run(v@, j as int) == 0,
        decreases v@.len() - j,
    {
        j = j + 1;
    }
    j
}

proof fn lemma_word_run_past(s: Seq<char>, i: int)
    ensures
        i >= s.len() ==> word_run(s, i) == 0,
        word_run(s, i) <= if i >= 0 && i < s.len() { s.len() - i } else { 0 },
    decreases s.len() - i,
{
    if 0 <= i < s.len() {
        lemma_word_run_past(s, i + 1);
    }
}

proof fn lemma_space_run_past(s: Seq<char>, i: int)
    ensures
        i >= s.len() ==> space_run(s, i) == 0,
        space_run(s, i) <= if i >= 0 && i < s.len() { s.len() - i } else { 0 },
    decreases s.len() - i,
{
    if 0 <= i < s.len() {
        lemma_space_run_past(s, i + 1);
    }
}

/// Recognizes a placeholder starting at `i`.
pub fn placeholder_at_exec(v: &Vec<char>, i: usize, loose: bool) -> (r: Option<(usize, usize, usize)>)
    requires
        i < v@.len(),
    ensures
        r matches Some((a, b, e)) ==> placeholder_at(v@, i as int, loose) == Some(
            (a as int, b as int, e as int),
        ),
        r is None ==> placeholder_at(v@, i as int, loose) is None,
{
    if v.len() - i > 1 && v[i] == '{' && v[i + 1] == '{' {
        proof {
            lemma_space_run_past(v@, i + 2);
        }
        let a = if loose {
            space_run_exec(v, i + 2)
        } else {
            i + 2
        };
        proof {
            lemma_word_run_past(v@, a as int);
        }
        let b = word_run_exec(v, a);
        proof {
            lemma_space_run_past(v@, b as int);
        }
        let c = if loose {
            space_run_exec(v, b)
        } else {
            b
        };
        if b > a && c < v.len() && v.len() - c > 1 && v[c] == '}' && v[c + 1] == '}' {
            Some((a, b, c + 2))
        } else {
            None
        }
    } else {
        None
    }
}

/// The placeholder names of `s`, in order of appearance (repeats included).
pub fn placeholder_names(s: &str) -> (r: Vec<String>)
    ensures
        r@.len() == placeholder_names_spec(s@).len(),
        forall|i: int| 0 <= i < r@.len() ==> #[trigger] r@[i]@ == placeholder_names_spec(s@)[i],
{
    let v = chars_of(s);
    let mut out: Vec<String> = Vec::new();
    let mut i: usize = 0;
    while i < v.len()
        invariant
            v@ == s@,
            i <= v@.len(),
            out@.len() + names_from(v@, i as int, true).len() == names_from(v@, 0, true).len(),
            forall|k: int|
                0 <= k < out@.len() ==> #[trigger] out@[k]@ == names_from(v@, 0, true)[k],
            forall|k: int|
                0 <= k < names_from(v@, i as int, true).len() ==> names_from(v@, 0, true)[out@.len()
                    + k] == #[trigger] names_from(v@, i as int, true)[k],
        decreases v@.len() - i,
    {
        match placeholder_at_exec(&v, i, true) {
            Some((a, b, e)) => {
                let name = subchars(&v, a, b);
                let ghost before = names_from(v@, i as int, true);
                let ghost after = names_from(v@, e as int, true);
                assert(before =~= seq![v@.subrange(a as int, b as int)] + after);
                let ghost old_len: int = out@.len() as int;
                assert(names_from(v@, 0, true)[old_len + 0] == before[0]);
                out.push(string_of(&name));
                proof {
                    assert(out@[old_len]@ == before[0]);
                    assert forall|k: int| 0 <= k < after.len() implies names_from(v@, 0, true)[out@.len()
                        + k] == #[trigger] after[k] by {
                        assert(before[k + 1] == after[k]);
                    }
                }
                i = e;
            },
            None => {
                i = i + 1;
            },
        }
    }
    proof {
        assert(names_from(v@, i as int, true).len() == 0);
    }
    out
}

/// Canonicalizes placeholders to `{{name}}` (no inner spaces), leaving all other
/// text, single braces included, untouched.
pub fn normalize(s: &str) -> (r: String)
    ensures
        r@ == normalize_spec(s@),
{
    let v = chars_of(s);
    let mut out = String::new();
    let mut i: usize = 0;
    let ghost f = |n: Seq<char>| n;
    while i < v.len()
        invariant
            v@ == s@,
            i <= v@.len(),
            f == (|n: Seq<char>| n),
            rewrite_from(v@, 0, true, f) == out@ + rewrite_from(v@, i as int, true, f),
        decreases v@.len() - i,
    {
        let ghost old_out = out@;
        match placeholder_at_exec(&v, i, true) {
            Some((a, b, e)) => {
                let name = subchars(&v, a, b);
                push_char(&mut out, '{');
                push_char(&mut out, '{');
                push_chars(&mut out, &name);
                push_char(&mut out, '}');
                push_char(&mut out, '}');
                proof {
                    assert(out@ =~= old_out + seq!['{', '{'] + name@ + seq!['}', '}']);
                }
                i = e;
            },
            None => {
                push_char(&mut out, v[i]);
                i = i + 1;
            },
        }
    }
    out
}

proof fn lemma_rewrite_plain(s: Seq<char>, i: int)
    requires
        0 <= i <= s.len(),
        names_from(s, i, true).len() == 0,
    ensures
        rewrite_from(s, i, true, |n: Seq<char>| n) == s.subrange(i, s.len() as int),
    decreases s.len() - i,
{
    if i < s.len() {
        assert(placeholder_at(s, i, true) is None);
        lemma_rewrite_plain(s, i + 1);
        assert(seq![s[i]] + s.subrange(i + 1, s.len() as int) =~= s.subrange(i, s.len() as int));
    } else {
        assert(s.subrange(i, s.len() as int) =~= Seq::<char>::empty());
    }
}

/// Text without placeholders is left exactly as it is, single braces included.
pub proof fn law_normalize_keeps_plain_text(s: Seq<char>)
    requires
        placeholder_names_spec(s).len() == 0,
    ensures
        normalize_spec(s) == s,
{
    lemma_rewrite_plain(s, 0);
    assert(s.subrange(0, s.len() as int) =~= s);
}

proof fn lemma_word_run_of_name(s: Seq<char>, n: Seq<char>, j: int)
    requires
        s == seq!['{', '{'] + n + seq!['}', '}'],
        forall|k: int| 0 <= k < n.len() ==> word_char(#[trigger] n[k]),
        0 <= j <= n.len(),
    ensures
        word_run(s, 2 + j) == n.len() - j,
    decreases n.len() - j,
{
    if j < n.len() {
        lemma_word_run_of_name(s, n, j + 1);
        assert(s[2 + j] == n[j]);
    } else {
        assert(s[2 + j] == '}');
    }
}

/// A lone placeholder `{{n}}` whose name is a run of word characters is
/// rewritten to `{{f(n)}}`.
pub proof fn lemma_rewrite_single(n: Seq<char>, f: spec_fn(Seq<char>) -> Seq<char>)
    requires
        n.len() > 0,
        forall|k: int| 0 <= k < n.len() ==> word_char(#[trigger] n[k]),
    ensures
        rewrite_from(seq!['{', '{'] + n + seq!['}', '}'], 0, false, f) == seq!['{', '{'] + f(n) + seq!['}', '}'],
{
    let s = seq!['{', '{'] + n + seq!['}', '}'];
    lemma_word_run_of_name(s, n, 0);
    let b: int = n.len() as int + 2;
    assert(s[0] == '{' && s[1] == '{');
    assert(s[b] == '}' && s[b + 1] == '}');
    assert(placeholder_at(s, 0, false) == Some((2int, b, b + 2)));
    assert(s.subrange(2, b) =~= n);
    assert(rewrite_from(s, b + 2, false, f) =~= Seq::<char>::empty());
    assert(seq!['{', '{'] + f(n) + seq!['}', '}'] + Seq::<char>::empty() =~= seq!['{', '{'] + f(n) + seq!['}', '}']);
}

/// Every element of `s` is kept by `dedup`.
pub proof fn lemma_dedup_contains(s: Seq<Seq<char>>, x: Seq<char>)
    requires
        s.contains(x),
    ensures
        dedup(s).contains(x),
    decreases s.len(),
{
    let d = dedup(s.drop_last());
    if s.last() == x {
        if !d.contains(x) {
            assert(d.push(x)[d.len() as int] == x);
        }
    } else {
        let j = choose|j: int| 0 <= j < s.len() && s[j] == x;
        assert(s.drop_last()[j] == x);
        lemma_dedup_contains(s.drop_last(), x);
        let k = choose|k: int| 0 <= k < d.len() && d[k] == x;
        if !d.contains(s.last()) {
            assert(d.push(s.last())[k] == x);
        }
    }
}

} // verus!
