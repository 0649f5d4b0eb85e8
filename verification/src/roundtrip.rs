//! The round trips of the exchange formats: reading back what `to_xliff` or
//! `to_csv` wrote gives the target locale and the units that went in.

use vstd::prelude::*;
use crate::exchange::{
    boundary, cap_at, close_tu, esc_char, escape_spec, first_cap, first_char, first_lang, flat, from_xliff_spec,
    id_eq, lang_eq, law_unescape_inverts_escape, open_tu, read_units, run_end, tu_all, tu_match_at,
    tu_rest, tu_scan, unit_xliff, units_xliff, xliff_spec, UnitV,
};
use crate::csvio::{csv_read, csv_written, utf8_text};
use crate::exchange::{cell, csv_rows, csv_units, table_units};
use crate::placeholder::word_char;
use crate::text::{first_occurrence, occurs_at};

verus! {

/// No character of `s` is `ch`.
pub open spec fn avoids(s: Seq<char>, ch: char) -> bool {
    forall|k: int| 0 <= k < s.len() ==> s[k] != ch
}

proof fn lemma_flat_avoids(s: Seq<char>, f: spec_fn(char) -> Seq<char>, ch: char)
    requires
        forall|k: int| 0 <= k < s.len() ==> avoids(#[trigger] f(s[k]), ch),
    ensures
        avoids(flat(s, f), ch),
    decreases s.len(),
{
    if s.len() > 0 {
        let t = s.drop_first();
        assert forall|k: int| 0 <= k < t.len() implies avoids(#[trigger] f(t[k]), ch) by {
            assert(t[k] == s[k + 1]);
        }
        lemma_flat_avoids(t, f, ch);
        assert(avoids(f(s[0]), ch));
        let r = flat(s, f);
        assert(r == f(s[0]) + flat(t, f));
        assert forall|k: int| 0 <= k < r.len() implies r[k] != ch by {
            if k < f(s[0]).len() {
                assert(r[k] == f(s[0])[k]);
            } else {
                assert(r[k] == flat(t, f)[k - f(s[0]).len()]);
            }
        }
    }
}

/// What escaping leaves out: `<` and `>` always, and `"` in attributes.
proof fn lemma_escape_avoids(s: Seq<char>, attr: bool)
    ensures
        avoids(escape_spec(s, attr), '<'),
        avoids(escape_spec(s, attr), '>'),
        attr ==> avoids(escape_spec(s, attr), '"'),
        avoids(s, '"') ==> avoids(escape_spec(s, attr), '"'),
{
    let f = |c: char| esc_char(c, attr);
    assert forall|k: int| 0 <= k < s.len() implies avoids(#[trigger] f(s[k]), '<') by {}
    lemma_flat_avoids(s, f, '<');
    assert forall|k: int| 0 <= k < s.len() implies avoids(#[trigger] f(s[k]), '>') by {}
    lemma_flat_avoids(s, f, '>');
    if attr {
        assert forall|k: int| 0 <= k < s.len() implies avoids(#[trigger] f(s[k]), '"') by {}
        lemma_flat_avoids(s, f, '"');
    }
    if avoids(s, '"') {
        assert forall|k: int| 0 <= k < s.len() implies avoids(#[trigger] f(s[k]), '"') by {
            assert(s[k] != '"');
        }
        lemma_flat_avoids(s, f, '"');
    }
}

/// A `<` followed by `t` at `j`: where a `<trans-unit` could start.
pub open spec fn opens_t(s: Seq<char>, j: int) -> bool {
    0 <= j && j + 1 < s.len() && s[j] == '<' && s[j + 1] == 't'
}

proof fn lemma_no_tu_at(s: Seq<char>, j: int)
    requires
        !opens_t(s, j),
    ensures
        tu_match_at(s, j) is None,
{
    reveal_strlit("<trans-unit");
    if occurs_at(s, open_tu(), j) {
        assert(s.subrange(j, j + 11)[0] == s[j]);
        assert(s.subrange(j, j + 11)[1] == s[j + 1]);
    }
}

/// `tu_all` passes over positions where no element can start.
proof fn lemma_tu_skip(s: Seq<char>, from: int, to: int)
    requires
        0 <= from <= to <= s.len(),
        forall|j: int| from <= j < to ==> !#[trigger] opens_t(s, j),
    ensures
        tu_all(s, from) == tu_all(s, to),
    decreases to - from,
{
    if from < to {
        assert(!opens_t(s, from));
        lemma_no_tu_at(s, from);
        lemma_tu_skip(s, from + 1, to);
    }
}

/// No element starts at or after `from`.
proof fn lemma_tu_end(s: Seq<char>, from: int)
    requires
        0 <= from <= s.len(),
        forall|j: int| from <= j < s.len() ==> !#[trigger] opens_t(s, j),
    ensures
        tu_all(s, from) == Seq::<(Seq<char>, Seq<char>)>::empty(),
{
    lemma_tu_skip(s, from, s.len() as int);
    lemma_no_tu_at(s, s.len() as int);
    assert(tu_all(s, s.len() as int + 1) == Seq::<(Seq<char>, Seq<char>)>::empty());
    assert(tu_all(s, s.len() as int) == tu_all(s, s.len() as int + 1));
}

proof fn lemma_first_char_at(s: Seq<char>, ch: char, from: int, k: int)
    requires
        0 <= from <= k < s.len(),
        s[k] == ch,
        forall|j: int| from <= j < k ==> s[j] != ch,
    ensures
        first_char(s, ch, from) == Some(k),
    decreases k - from,
{
    if from < k {
        lemma_first_char_at(s, ch, from + 1, k);
    }
}

proof fn lemma_first_occ_at(s: Seq<char>, p: Seq<char>, from: int, k: int)
    requires
        0 <= from <= k,
        occurs_at(s, p, k),
        forall|j: int| from <= j < k ==> !occurs_at(s, p, j),
    ensures
        first_occurrence(s, p, from) == Some(k),
    decreases k - from,
{
    if from < k {
        lemma_first_occ_at(s, p, from + 1, k);
    }
}

proof fn lemma_first_cap_skip(x: Seq<char>, open: Seq<char>, close: Seq<char>, from: int, to: int)
    requires
        0 <= from <= to <= x.len(),
        forall|j: int| from <= j < to ==> !occurs_at(x, open, j),
    ensures
        first_cap(x, open, close, from) == first_cap(x, open, close, to),
    decreases to - from,
{
    if from < to {
        lemma_first_cap_skip(x, open, close, from + 1, to);
    }
}

proof fn lemma_first_lang_skip(s: Seq<char>, from: int, to: int)
    requires
        0 <= from <= to <= s.len(),
        forall|j: int| from <= j < to ==> !occurs_at(s, lang_eq(), j),
    ensures
        first_lang(s, from) == first_lang(s, to),
    decreases to - from,
{
    if from < to {
        lemma_first_lang_skip(s, from + 1, to);
    }
}

/// An escaped id that ends in `id=`: next to the closing quote, it would read
/// as the start of an `id="` attribute of its own.
pub open spec fn ends_in_id_eq(e: Seq<char>) -> bool {
    e.len() >= 3 && e[e.len() - 3] == 'i' && e[e.len() - 2] == 'd' && e[e.len() - 1] == '='
}

/// An escaped id whose ending `id=` starts at a word boundary (`\bid="` with
/// the closing quote): the reader's backtracking takes it for the element's
/// own `id` attribute whenever a quote comes later in the document.
pub open spec fn id_steals(e: Seq<char>) -> bool {
    ends_in_id_eq(e) && (e.len() == 3 || !word_char(e[e.len() - 4]))
}

/// No quote at or after position `j` of `s`.
pub open spec fn quote_free_from(s: Seq<char>, j: int) -> bool {
    forall|i: int| j <= i < s.len() ==> s[i] != '"'
}

/// Unit `k` of `us` is read back: its escaped id cannot pass for the
/// attribute, or no quote comes after it (it is the last unit and its texts
/// hold none).
pub open spec fn id_read_back(us: Seq<UnitV>, k: int) -> bool {
    id_steals(escape_spec(us[k].0, true)) ==> k == us.len() - 1 && avoids(us[k].1, '"') && avoids(us[k].2, '"')
}

proof fn lemma_first_char_none(s: Seq<char>, ch: char, from: int)
    requires
        0 <= from,
        forall|i: int| from <= i < s.len() ==> s[i] != ch,
    ensures
        first_char(s, ch, from) is None,
    decreases s.len() - from,
{
    if from < s.len() {
        lemma_first_char_none(s, ch, from + 1);
    }
}

/// The body of one unit's element, as the reader captures it.
pub open spec fn unit_body(u: UnitV) -> Seq<char> {
    "\n        <source>"@ + escape_spec(u.1, false) + "</source>\n        <target>"@ + escape_spec(u.2, false)
        + "</target>\n      "@
}

/// The raw id and body the reader captures for one unit.
pub open spec fn unit_raw(u: UnitV) -> (Seq<char>, Seq<char>) {
    (escape_spec(u.0, true), unit_body(u))
}

proof fn lemma_tu_scan_down(s: Seq<char>, lo: int, from: int, to: int)
    requires
        lo <= to <= from,
        forall|q: int| to < q <= from ==> !(occurs_at(s, id_eq(), q) && boundary(s, q) && tu_rest(s, q) is Some),
    ensures
        tu_scan(s, lo, from) == tu_scan(s, lo, to),
    decreases from - to,
{
    if to < from {
        lemma_tu_scan_down(s, lo, from - 1, to);
    }
}

/// The literal pieces of one unit's element.
pub open spec fn unit_pieces_ok(u: UnitV) -> bool {
    unit_xliff(u) == "      <trans-unit id=\""@ + escape_spec(u.0, true) + "\">\n        <source>"@ + escape_spec(u.1, false)
        + "</source>\n        <target>"@ + escape_spec(u.2, false) + "</target>\n      </trans-unit>\n"@
}

/// `s` holds the element of `u` at `p`, character by character.
#[verifier::opaque]
pub open spec fn unit_at(s: Seq<char>, p: int, u: UnitV) -> bool {
    &&& 0 <= p
    &&& p + unit_xliff(u).len() <= s.len()
    &&& unit_xliff(u).len() == 97 + escape_spec(u.0, true).len() + escape_spec(u.1, false).len() + escape_spec(u.2, false).len()
    &&& forall|j: int| p <= j < p + unit_xliff(u).len() ==> #[trigger] s[j] == unit_xliff(u)[j - p]
}

proof fn lemma_unit_at(s: Seq<char>, p: int, u: UnitV)
    requires
        0 <= p,
        p + unit_xliff(u).len() <= s.len(),
        s.subrange(p, p + unit_xliff(u).len()) == unit_xliff(u),
    ensures
        unit_at(s, p, u),
{
    reveal(unit_at);
    reveal_strlit("      <trans-unit id=\"");
    reveal_strlit("\">\n        <source>");
    reveal_strlit("</source>\n        <target>");
    reveal_strlit("</target>\n      </trans-unit>\n");
    let x = unit_xliff(u);
    assert forall|j: int| p <= j < p + x.len() implies #[trigger] s[j] == x[j - p] by {
        assert(s.subrange(p, p + x.len())[j - p] == s[j]);
    }
}

/// The opening tag: no element starts in the indentation, the tag's name
/// matches with a word boundary after it, and its attributes run to the `>`
/// after the id.
proof fn lemma_unit_open(s: Seq<char>, p: int, u: UnitV)
    requires
        unit_at(s, p, u),
    ensures
        tu_all(s, p) == tu_all(s, p + 6),
        occurs_at(s, open_tu(), p + 6),
        boundary(s, p + 17),
        run_end(s, p + 17) == p + 23 + escape_spec(u.0, true).len(),
{
    reveal(unit_at);
    reveal_strlit("      <trans-unit id=\"");
    reveal_strlit("\">\n        <source>");
    reveal_strlit("<trans-unit");
    let e0 = escape_spec(u.0, true);
    let a = e0.len() as int;
    lemma_escape_avoids(u.0, true);
    assert(s[p + 6] == '<');
    lemma_tu_skip(s, p, p + 6);
    assert(s.subrange(p + 6, p + 17) =~= open_tu());
    assert(s[p + 16] == 't' && s[p + 17] == ' ');
    assert forall|j: int| p + 17 <= j < p + 23 + a implies s[j] != '>' by {
        if j >= p + 22 && j < p + 22 + a {
            assert(s[j] == e0[j - p - 22]);
        }
    }
    assert(s[p + 23 + a] == '>');
    lemma_first_char_at(s, '>', p + 17, p + 23 + a);
}

/// After the id attribute's closing quote, the element holds quotes only in
/// its texts.
proof fn lemma_unit_quotes(s: Seq<char>, p: int, u: UnitV)
    requires
        unit_at(s, p, u),
        avoids(escape_spec(u.1, false), '"'),
        avoids(escape_spec(u.2, false), '"'),
        quote_free_from(s, p + unit_xliff(u).len()),
    ensures
        quote_free_from(s, p + 23 + escape_spec(u.0, true).len()),
{
    reveal(unit_at);
    reveal_strlit("      <trans-unit id=\"");
    reveal_strlit("\">\n        <source>");
    reveal_strlit("</source>\n        <target>");
    reveal_strlit("</target>\n      </trans-unit>\n");
    let a = escape_spec(u.0, true).len() as int;
    let e1 = escape_spec(u.1, false);
    let e2 = escape_spec(u.2, false);
    let b = e1.len() as int;
    let c = e2.len() as int;
    assert forall|i: int| p + 23 + a <= i < s.len() implies s[i] != '"' by {
        if i < p + unit_xliff(u).len() {
            if p + 41 + a <= i < p + 41 + a + b {
                assert(s[i] == e1[i - p - 41 - a]);
            } else if p + 67 + a + b <= i < p + 67 + a + b + c {
                assert(s[i] == e2[i - p - 67 - a - b]);
            }
        }
    }
}

/// The id attribute: the only `id="` before the tag's `>` is the one written,
/// after a space, and its value runs to the next quote.
proof fn lemma_unit_id(s: Seq<char>, p: int, u: UnitV)
    requires
        id_steals(escape_spec(u.0, true)) ==> avoids(escape_spec(u.1, false), '"') && avoids(escape_spec(u.2, false), '"')
            && quote_free_from(s, p + unit_xliff(u).len()),
        unit_at(s, p, u),
    ensures
        tu_scan(s, p + 17, p + 23 + escape_spec(u.0, true).len()) == tu_scan(s, p + 17, p + 18),
        occurs_at(s, id_eq(), p + 18),
        boundary(s, p + 18),
        first_char(s, '"', p + 22) == Some(p + 22 + escape_spec(u.0, true).len()),
        first_char(s, '>', p + 23 + escape_spec(u.0, true).len()) == Some(p + 23 + escape_spec(u.0, true).len()),
{
    reveal(unit_at);
    reveal_strlit("      <trans-unit id=\"");
    reveal_strlit("\">\n        <source>");
    reveal_strlit("id=\"");
    let e0 = escape_spec(u.0, true);
    let a = e0.len() as int;
    lemma_escape_avoids(u.0, true);
    assert forall|q: int| p + 18 < q <= p + 23 + a implies !(occurs_at(s, id_eq(), q) && boundary(s, q) && tu_rest(
        s,
        q,
    ) is Some) by {
        if occurs_at(s, id_eq(), q) {
            assert(s.subrange(q, q + 4)[0] == s[q]);
            assert(s.subrange(q, q + 4)[1] == s[q + 1]);
            assert(s.subrange(q, q + 4)[2] == s[q + 2]);
            assert(s.subrange(q, q + 4)[3] == s[q + 3]);
            if q + 3 >= p + 22 && q + 3 < p + 22 + a {
                assert(s[q + 3] == e0[q + 3 - p - 22]);
            }
            assert(q + 3 == p + 22 + a);
            assert(a >= 3);
            assert(s[q] == e0[a - 3]);
            assert(s[q + 1] == e0[a - 2]);
            assert(s[q + 2] == e0[a - 1]);
            if boundary(s, q) {
                if a >= 4 {
                    assert(s[q - 1] == e0[a - 4]);
                }
                assert(id_steals(e0));
                lemma_unit_quotes(s, p, u);
                lemma_first_char_none(s, '"', q + 4);
            }
        }
    }
    lemma_tu_scan_down(s, p + 17, p + 23 + a, p + 18);
    assert(s.subrange(p + 18, p + 22) =~= id_eq());
    assert(s[p + 17] == ' ' && s[p + 18] == 'i');
    assert forall|j: int| p + 22 <= j < p + 22 + a implies s[j] != '"' by {
        assert(s[j] == e0[j - p - 22]);
    }
    assert(s[p + 22 + a] == '"');
    lemma_first_char_at(s, '"', p + 22, p + 22 + a);
    assert(s[p + 23 + a] == '>');
    lemma_first_char_at(s, '>', p + 23 + a, p + 23 + a);
}

/// `</trans-unit>` at `j` means `<`, `/`, `t`, `r` there.
proof fn lemma_close_chars(s: Seq<char>, j: int)
    requires
        occurs_at(s, close_tu(), j),
    ensures
        s[j] == '<' && s[j + 1] == '/' && s[j + 2] == 't' && s[j + 3] == 'r',
{
    reveal_strlit("</trans-unit>");
    assert(s.subrange(j, j + 13)[0] == s[j]);
    assert(s.subrange(j, j + 13)[1] == s[j + 1]);
    assert(s.subrange(j, j + 13)[2] == s[j + 2]);
    assert(s.subrange(j, j + 13)[3] == s[j + 3]);
}

/// No `</trans-unit>` in the source part of the body.
proof fn lemma_unit_no_close_source(s: Seq<char>, p: int, u: UnitV)
    requires
        unit_at(s, p, u),
    ensures
        forall|j: int|
            p + 24 + escape_spec(u.0, true).len() <= j < p + 41 + escape_spec(u.0, true).len() + escape_spec(u.1, false).len()
                ==> !occurs_at(s, close_tu(), j),
{
    reveal(unit_at);
    reveal_strlit("      <trans-unit id=\"");
    reveal_strlit("\">\n        <source>");
    reveal_strlit("</source>\n        <target>");
    let a = escape_spec(u.0, true).len() as int;
    let e1 = escape_spec(u.1, false);
    let b = e1.len() as int;
    lemma_escape_avoids(u.1, false);
    assert forall|j: int| p + 24 + a <= j < p + 41 + a + b implies !occurs_at(s, close_tu(), j) by {
        if occurs_at(s, close_tu(), j) {
            lemma_close_chars(s, j);
            if j >= p + 41 + a {
                assert(s[j] == e1[j - p - 41 - a]);
            }
        }
    }
}

/// No `</trans-unit>` in the target part of the body before the own_at one.
proof fn lemma_unit_no_close_target(s: Seq<char>, p: int, u: UnitV)
    requires
        unit_at(s, p, u),
    ensures
        forall|j: int|
            p + 41 + escape_spec(u.0, true).len() + escape_spec(u.1, false).len() <= j < p + 83 + escape_spec(u.0, true).len()
                + escape_spec(u.1, false).len() + escape_spec(u.2, false).len() ==> !occurs_at(s, close_tu(), j),
{
    reveal(unit_at);
    reveal_strlit("      <trans-unit id=\"");
    reveal_strlit("\">\n        <source>");
    reveal_strlit("</source>\n        <target>");
    reveal_strlit("</target>\n      </trans-unit>\n");
    let a = escape_spec(u.0, true).len() as int;
    let b = escape_spec(u.1, false).len() as int;
    let e2 = escape_spec(u.2, false);
    let c = e2.len() as int;
    lemma_escape_avoids(u.2, false);
    assert forall|j: int| p + 41 + a + b <= j < p + 83 + a + b + c implies !occurs_at(s, close_tu(), j) by {
        if occurs_at(s, close_tu(), j) {
            lemma_close_chars(s, j);
            if j >= p + 67 + a + b && j < p + 67 + a + b + c {
                assert(s[j] == e2[j - p - 67 - a - b]);
            }
        }
    }
}


/// What the scan captures of the element, and the newline after it.
proof fn lemma_unit_caps(s: Seq<char>, p: int, u: UnitV)
    requires
        unit_at(s, p, u),
    ensures
        s.subrange(p + 22, p + 22 + escape_spec(u.0, true).len()) == escape_spec(u.0, true),
        s.subrange(p + 24 + escape_spec(u.0, true).len(), p + 83 + escape_spec(u.0, true).len() + escape_spec(u.1, false).len()
            + escape_spec(u.2, false).len()) == unit_body(u),
        occurs_at(s, close_tu(), p + 83 + escape_spec(u.0, true).len() + escape_spec(u.1, false).len() + escape_spec(u.2, false).len()),
        !opens_t(s, p + 96 + escape_spec(u.0, true).len() + escape_spec(u.1, false).len() + escape_spec(u.2, false).len()),
        p + 97 + escape_spec(u.0, true).len() + escape_spec(u.1, false).len() + escape_spec(u.2, false).len() == p + unit_xliff(u).len(),
        p + unit_xliff(u).len() <= s.len(),
{
    reveal(unit_at);
    reveal_strlit("      <trans-unit id=\"");
    reveal_strlit("\">\n        <source>");
    reveal_strlit("</source>\n        <target>");
    reveal_strlit("</target>\n      </trans-unit>\n");
    reveal_strlit("\n        <source>");
    reveal_strlit("</target>\n      ");
    reveal_strlit("</trans-unit>");
    let a = escape_spec(u.0, true).len() as int;
    let b = escape_spec(u.1, false).len() as int;
    let c = escape_spec(u.2, false).len() as int;
    let t = p + 83 + a + b + c;
    assert(s.subrange(p + 22, p + 22 + a) =~= escape_spec(u.0, true));
    assert(s.subrange(p + 24 + a, t) =~= unit_body(u));
    assert(s.subrange(t, t + 13) =~= close_tu());
    assert(s[t + 13] == '\n');
}

/// One unit's element, written at `p` of `s`, is read as its raw id and body,
/// and the scan goes on right after it.
proof fn lemma_tu_unit(s: Seq<char>, p: int, u: UnitV)
    requires
        id_steals(escape_spec(u.0, true)) ==> avoids(escape_spec(u.1, false), '"') && avoids(escape_spec(u.2, false), '"')
            && quote_free_from(s, p + unit_xliff(u).len()),
        0 <= p,
        p + unit_xliff(u).len() <= s.len(),
        s.subrange(p, p + unit_xliff(u).len()) == unit_xliff(u),
    ensures
        tu_all(s, p) == seq![unit_raw(u)] + tu_all(s, p + unit_xliff(u).len()),
{
    let x = unit_xliff(u);
    let e0 = escape_spec(u.0, true);
    let a = e0.len() as int;
    let b = escape_spec(u.1, false).len() as int;
    let c = escape_spec(u.2, false).len() as int;
    let t = p + 83 + a + b + c;
    lemma_unit_at(s, p, u);
    lemma_unit_open(s, p, u);
    lemma_unit_id(s, p, u);
    lemma_unit_no_close_source(s, p, u);
    lemma_unit_no_close_target(s, p, u);
    lemma_unit_caps(s, p, u);
    lemma_first_occ_at(s, close_tu(), p + 24 + a, t);
    assert(tu_rest(s, p + 18) == Some((p + 22 + a, p + 24 + a, t)));
    assert(tu_match_at(s, p + 6) == Some((p + 22, p + 22 + a, p + 24 + a, t)));
    lemma_tu_skip(s, t + 13, p + x.len());
}

/// The raw ids and bodies the reader captures for the units.
pub open spec fn units_raw(us: Seq<UnitV>) -> Seq<(Seq<char>, Seq<char>)> {
    us.map_values(|u: UnitV| unit_raw(u))
}

proof fn lemma_split_sub(s: Seq<char>, p: int, x: Seq<char>, y: Seq<char>)
    requires
        0 <= p,
        p + x.len() + y.len() <= s.len(),
        s.subrange(p, p + x.len() + y.len()) == x + y,
    ensures
        s.subrange(p, p + x.len()) == x,
        s.subrange(p + x.len(), p + x.len() + y.len()) == y,
{
    assert forall|k: int| 0 <= k < x.len() implies s.subrange(p, p + x.len())[k] == x[k] by {
        assert(s.subrange(p, p + x.len() + y.len())[k] == (x + y)[k]);
    }
    assert(s.subrange(p, p + x.len()) =~= x);
    assert forall|k: int| 0 <= k < y.len() implies s.subrange(p + x.len(), p + x.len() + y.len())[k] == y[k] by {
        assert(s.subrange(p, p + x.len() + y.len())[x.len() + k] == (x + y)[x.len() + k]);
        assert(s.subrange(p, p + x.len() + y.len())[x.len() + k] == s[p + x.len() + k]);
        assert(s.subrange(p + x.len(), p + x.len() + y.len())[k] == s[p + x.len() + k]);
    }
    assert(s.subrange(p + x.len(), p + x.len() + y.len()) =~= y);
}

/// The elements of all the units, written at `p` of `s`, are read in order.
proof fn lemma_tu_units(s: Seq<char>, p: int, us: Seq<UnitV>)
    requires
        forall|k: int|
            0 <= k < us.len() && id_steals(#[trigger] escape_spec(us[k].0, true)) ==> k == us.len() - 1 && avoids(
                escape_spec(us[k].1, false),
                '"',
            ) && avoids(escape_spec(us[k].2, false), '"'),
        us.len() > 0 && id_steals(escape_spec(us.last().0, true)) ==> quote_free_from(s, p + units_xliff(us).len()),
        0 <= p,
        p + units_xliff(us).len() <= s.len(),
        s.subrange(p, p + units_xliff(us).len()) == units_xliff(us),
    ensures
        tu_all(s, p) == units_raw(us) + tu_all(s, p + units_xliff(us).len()),
    decreases us.len(),
{
    if us.len() == 0 {
        assert(units_raw(us) =~= Seq::<(Seq<char>, Seq<char>)>::empty());
        assert(units_raw(us) + tu_all(s, p) =~= tu_all(s, p));
    } else {
        let init = us.drop_last();
        let last = us.last();
        let ui = units_xliff(init);
        let x = unit_xliff(last);
        assert(units_xliff(us) == ui + x);
        lemma_split_sub(s, p, ui, x);
        assert forall|k: int| 0 <= k < init.len() implies !id_steals(#[trigger] escape_spec(init[k].0, true)) by {
            assert(init[k] == us[k]);
        }
        if init.len() > 0 {
            assert(init.last() == init[init.len() - 1]);
        }
        lemma_tu_units(s, p, init);
        assert(us[us.len() - 1] == last);
        lemma_tu_unit(s, p + ui.len(), last);
        assert(units_raw(us) =~= units_raw(init) + seq![unit_raw(last)]);
        assert(units_raw(init) + (seq![unit_raw(last)] + tu_all(s, p + ui.len() + x.len())) =~= units_raw(us) + tu_all(
            s,
            p + units_xliff(us).len(),
        ));
    }
}

/// The reader finds the escaped source text in the body.
proof fn lemma_body_source(u: UnitV)
    requires
    ensures
        first_cap(unit_body(u), "<source"@, "</source>"@, 0) == Some(escape_spec(u.1, false)),
{
    reveal_strlit("\n        <source>");
    reveal_strlit("</source>\n        <target>");
    reveal_strlit("</target>\n      ");
    reveal_strlit("<source");
    reveal_strlit("</source>");
    let x = unit_body(u);
    let e1 = escape_spec(u.1, false);
    let b = e1.len() as int;
    lemma_escape_avoids(u.1, false);
    assert forall|j: int| 0 <= j < 9 implies !occurs_at(x, "<source"@, j) by {
        if occurs_at(x, "<source"@, j) {
            assert(x.subrange(j, j + 7)[0] == x[j]);
        }
    }
    lemma_first_cap_skip(x, "<source"@, "</source>"@, 0, 9);
    assert(x.subrange(9, 16) =~= "<source"@);
    assert(x[15] == 'e' && x[16] == '>');
    assert(boundary(x, 16));
    lemma_first_char_at(x, '>', 16, 16);
    assert forall|j: int| 17 <= j < 17 + b implies !occurs_at(x, "</source>"@, j) by {
        if occurs_at(x, "</source>"@, j) {
            assert(x.subrange(j, j + 9)[0] == x[j]);
            assert(x[j] == e1[j - 17]);
        }
    }
    assert(x.subrange(17 + b, 26 + b) =~= "</source>"@);
    lemma_first_occ_at(x, "</source>"@, 17, 17 + b);
    assert(cap_at(x, "<source"@, "</source>"@, 9) == Some((17int, 17 + b)));
    assert(x.subrange(17, 17 + b) =~= e1);
}

/// The reader finds the escaped target text in the body.
proof fn lemma_body_target(u: UnitV)
    requires
    ensures
        first_cap(unit_body(u), "<target"@, "</target>"@, 0) == Some(escape_spec(u.2, false)),
{
    reveal_strlit("\n        <source>");
    reveal_strlit("</source>\n        <target>");
    reveal_strlit("</target>\n      ");
    reveal_strlit("<target");
    reveal_strlit("</target>");
    let x = unit_body(u);
    let e1 = escape_spec(u.1, false);
    let e2 = escape_spec(u.2, false);
    let b = e1.len() as int;
    let c = e2.len() as int;
    lemma_escape_avoids(u.1, false);
    lemma_escape_avoids(u.2, false);
    assert forall|j: int| 0 <= j < 35 + b implies !occurs_at(x, "<target"@, j) by {
        if occurs_at(x, "<target"@, j) {
            assert(x.subrange(j, j + 7)[0] == x[j]);
            assert(x.subrange(j, j + 7)[1] == x[j + 1]);
            if 17 <= j < 17 + b {
                assert(x[j] == e1[j - 17]);
            }
        }
    }
    lemma_first_cap_skip(x, "<target"@, "</target>"@, 0, 35 + b);
    assert(x.subrange(35 + b, 42 + b) =~= "<target"@);
    assert(x[41 + b] == 't' && x[42 + b] == '>');
    assert(boundary(x, 42 + b));
    lemma_first_char_at(x, '>', 42 + b, 42 + b);
    assert forall|j: int| 43 + b <= j < 43 + b + c implies !occurs_at(x, "</target>"@, j) by {
        if occurs_at(x, "</target>"@, j) {
            assert(x.subrange(j, j + 9)[0] == x[j]);
            assert(x[j] == e2[j - 43 - b]);
        }
    }
    assert(x.subrange(43 + b + c, 52 + b + c) =~= "</target>"@);
    lemma_first_occ_at(x, "</target>"@, 43 + b, 43 + b + c);
    assert(cap_at(x, "<target"@, "</target>"@, 35 + b) == Some((43 + b, 43 + b + c)));
    assert(x.subrange(43 + b, 43 + b + c) =~= e2);
}

/// Reading the captured elements back gives the units, when no id is empty.
proof fn lemma_read_units_raw(us: Seq<UnitV>)
    requires
        forall|k: int| 0 <= k < us.len() ==> (#[trigger] us[k].0).len() > 0,
    ensures
        read_units(units_raw(us)) == us,
    decreases us.len(),
{
    if us.len() > 0 {
        let init = us.drop_last();
        let u = us.last();
        assert(units_raw(us).drop_last() =~= units_raw(init));
        assert forall|k: int| 0 <= k < init.len() implies (#[trigger] init[k].0).len() > 0 by {
            assert(init[k] == us[k]);
        }
        lemma_read_units_raw(init);
        assert(units_raw(us).last() == unit_raw(u));
        law_unescape_inverts_escape(u.0, true);
        law_unescape_inverts_escape(u.1, false);
        law_unescape_inverts_escape(u.2, false);
        lemma_body_source(u);
        lemma_body_target(u);
        assert(u.0.len() > 0);
        assert(read_units(units_raw(us)) =~= init.push(u));
        assert(init.push(u) =~= us);
    } else {
        assert(units_raw(us) =~= Seq::<(Seq<char>, Seq<char>)>::empty());
    }
}

/// A locale tag the document can carry through: no quote, `=` or `<`.
pub open spec fn plain_tag(s: Seq<char>) -> bool {
    avoids(s, '"') && avoids(s, '=') && avoids(s, '<')
}

/// The length of the document's header, before the units.
pub open spec fn head_len(canon: Seq<char>, target: Seq<char>) -> int {
    ("<?xml version=\"1.0\" encoding=\"UTF-8\"?>\n<xliff version=\"1.2\">\n"@ + "  <file original=\"stele\" source-language=\""@
        + canon + "\" target-language=\""@ + target + "\" datatype=\"plaintext\">\n    <body>\n"@).len() as int
}

/// No element starts in the header.
proof fn lemma_doc_head(canon: Seq<char>, target: Seq<char>, us: Seq<UnitV>)
    requires
        plain_tag(canon),
        plain_tag(target),
    ensures
        tu_all(xliff_spec(canon, target, us), 0) == tu_all(xliff_spec(canon, target, us), head_len(canon, target)),
        head_len(canon, target) + units_xliff(us).len() <= xliff_spec(canon, target, us).len(),
        xliff_spec(canon, target, us).subrange(head_len(canon, target), head_len(canon, target) + units_xliff(us).len())
            == units_xliff(us),
{
    reveal_strlit("<?xml version=\"1.0\" encoding=\"UTF-8\"?>\n<xliff version=\"1.2\">\n");
    reveal_strlit("  <file original=\"stele\" source-language=\"");
    reveal_strlit("\" target-language=\"");
    reveal_strlit("\" datatype=\"plaintext\">\n    <body>\n");
    reveal_strlit("    </body>\n  </file>\n</xliff>\n");
    let s = xliff_spec(canon, target, us);
    let h = head_len(canon, target);
    let u = units_xliff(us);
    assert(h == 157 + canon.len() + target.len());
    assert forall|j: int| 0 <= j < h implies !#[trigger] opens_t(s, j) by {
        if opens_t(s, j) {
            if 103 <= j < 103 + canon.len() {
                assert(s[j] == canon[j - 103]);
            } else if 122 + canon.len() <= j < 122 + canon.len() + target.len() {
                assert(s[j] == target[j - 122 - canon.len()]);
            }
        }
    }
    lemma_tu_skip(s, 0, h);
    assert(s.subrange(h, h + u.len()) =~= u);
}

/// No element starts in the footer.
proof fn lemma_doc_tail(canon: Seq<char>, target: Seq<char>, us: Seq<UnitV>)
    ensures
        quote_free_from(xliff_spec(canon, target, us), head_len(canon, target) + units_xliff(us).len()),
        tu_all(xliff_spec(canon, target, us), head_len(canon, target) + units_xliff(us).len()) == Seq::<
            (Seq<char>, Seq<char>),
        >::empty(),
{
    reveal_strlit("<?xml version=\"1.0\" encoding=\"UTF-8\"?>\n<xliff version=\"1.2\">\n");
    reveal_strlit("  <file original=\"stele\" source-language=\"");
    reveal_strlit("\" target-language=\"");
    reveal_strlit("\" datatype=\"plaintext\">\n    <body>\n");
    reveal_strlit("    </body>\n  </file>\n</xliff>\n");
    let s = xliff_spec(canon, target, us);
    let e = head_len(canon, target) + units_xliff(us).len();
    assert(s.len() == e + 31);
    assert forall|j: int| e <= j < s.len() implies !#[trigger] opens_t(s, j) by {}
    lemma_tu_end(s, e);
}

/// The target language read back is the one written.
proof fn lemma_doc_lang(canon: Seq<char>, target: Seq<char>, us: Seq<UnitV>)
    requires
        plain_tag(canon),
        plain_tag(target),
    ensures
        first_lang(xliff_spec(canon, target, us), 0) == Some(target),
{
    reveal_strlit("<?xml version=\"1.0\" encoding=\"UTF-8\"?>\n<xliff version=\"1.2\">\n");
    reveal_strlit("  <file original=\"stele\" source-language=\"");
    reveal_strlit("\" target-language=\"");
    reveal_strlit("\" datatype=\"plaintext\">\n    <body>\n");
    reveal_strlit("target-language=\"");
    let s = xliff_spec(canon, target, us);
    let n = canon.len() as int;
    let own_at = 105 + n;
    assert forall|j: int| 0 <= j < own_at implies !occurs_at(s, lang_eq(), j) by {
        if occurs_at(s, lang_eq(), j) {
            assert(s.subrange(j, j + 17)[0] == s[j]);
            assert(s.subrange(j, j + 17)[15] == s[j + 15]);
            assert(s.subrange(j, j + 17)[16] == s[j + 16]);
            assert(s[j] == 't' && s[j + 15] == '=' && s[j + 16] == '"');
            if 103 <= j + 16 < 103 + n {
                assert(s[j + 16] == canon[j + 16 - 103]);
            } else if j + 16 == 103 + n && n > 0 {
                assert(s[j + 15] == canon[n - 1]);
            } else if 103 <= j + 15 < 103 + n {
                assert(s[j + 15] == canon[j + 15 - 103]);
            } else if 103 <= j < 103 + n {
                assert(s[j] == canon[j - 103]);
            }
        }
    }
    lemma_first_lang_skip(s, 0, own_at);
    assert(s.subrange(own_at, own_at + 17) =~= lang_eq());
    let m = target.len() as int;
    assert forall|j: int| own_at + 17 <= j < own_at + 17 + m implies s[j] != '"' by {
        assert(s[j] == target[j - own_at - 17]);
    }
    lemma_first_char_at(s, '"', own_at + 17, own_at + 17 + m);
    assert(s.subrange(own_at + 17, own_at + 17 + m) =~= target);
}

/// Reading back a document that `to_xliff` wrote gives the target locale and
/// the units that went in. This holds for locale tags without a quote, `=` or
/// `<`, and for units whose ids are not empty (the reader skips an empty id)
/// and are read back (`id_read_back`): an escaped id ending in `id=` at a word
/// boundary takes the place of the real attribute when a quote comes later.
pub proof fn law_xliff_round_trip(canon: Seq<char>, target: Seq<char>, us: Seq<UnitV>)
    requires
        plain_tag(canon),
        plain_tag(target),
        forall|k: int| 0 <= k < us.len() ==> (#[trigger] us[k].0).len() > 0 && id_read_back(us, k),
    ensures
        from_xliff_spec(xliff_spec(canon, target, us)) == (target, us),
{
    let s = xliff_spec(canon, target, us);
    let h = head_len(canon, target);
    lemma_doc_lang(canon, target, us);
    lemma_doc_head(canon, target, us);
    assert forall|k: int|
        0 <= k < us.len() && id_steals(#[trigger] escape_spec(us[k].0, true)) implies k == us.len() - 1 && avoids(
            escape_spec(us[k].1, false),
            '"',
        ) && avoids(escape_spec(us[k].2, false), '"') by {
        assert(id_read_back(us, k));
        lemma_escape_avoids(us[k].1, false);
        lemma_escape_avoids(us[k].2, false);
    }
    if us.len() > 0 {
        assert(us.last() == us[us.len() - 1]);
    }
    lemma_doc_tail(canon, target, us);
    lemma_tu_units(s, h, us);
    assert(tu_all(s, 0) =~= units_raw(us));
    assert forall|k: int| 0 <= k < us.len() implies (#[trigger] us[k].0).len() > 0 by {}
    lemma_read_units_raw(us);
}

proof fn lemma_csv_units(us: Seq<UnitV>)
    requires
        forall|k: int| 0 <= k < us.len() ==> (#[trigger] us[k].0).len() > 0,
    ensures
        csv_units(us.map_values(|u: UnitV| seq![u.0, u.1, u.2])) == us,
    decreases us.len(),
{
    if us.len() > 0 {
        let f = |u: UnitV| seq![u.0, u.1, u.2];
        let init = us.drop_last();
        assert(us.map_values(f).drop_last() =~= init.map_values(f));
        assert forall|k: int| 0 <= k < init.len() implies (#[trigger] init[k].0).len() > 0 by {
            assert(init[k] == us[k]);
        }
        lemma_csv_units(init);
        let u = us.last();
        assert(us.map_values(f).last() == f(u));
        assert(u.0.len() > 0);
        assert(cell(f(u), 0) == u.0 && cell(f(u), 1) == u.1 && cell(f(u), 2) == u.2);
        assert(init.push(u) =~= us);
    } else {
        assert(us.map_values(|u: UnitV| seq![u.0, u.1, u.2]) =~= Seq::<Seq<Seq<char>>>::empty());
    }
}

/// What `from_csv` reads back of what `to_csv` wrote: when the `csv` crate's
/// reader gives back the records its writer wrote for them, the target locale
/// and the units come back, for units whose ids are not empty (a record with an
/// empty id is skipped).
pub proof fn law_csv_round_trip(canon: Seq<char>, target: Seq<char>, us: Seq<UnitV>, text: Seq<char>)
    requires
        utf8_text(csv_written(csv_rows(canon, target, us))) == Some(text),
        csv_read(text) == csv_rows(canon, target, us),
        forall|k: int| 0 <= k < us.len() ==> (#[trigger] us[k].0).len() > 0,
    ensures
        table_units(csv_read(text)) == (target, us),
{
    reveal_strlit("id");
    let rows = csv_rows(canon, target, us);
    assert(rows[0] == seq!["id"@, canon, target]);
    assert(rows.drop_first() =~= us.map_values(|u: UnitV| seq![u.0, u.1, u.2]));
    lemma_csv_units(us);
}

} // verus!
