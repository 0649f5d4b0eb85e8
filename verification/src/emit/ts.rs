//! The TypeScript target: a `Locale` union, a typed accessor interface and its
//! factory over a baked `DATA` table, plus the plain-JavaScript and
//! declaration-file halves of the same module that a package ships.

use vstd::prelude::*;
use crate::emit::{
    apply_spec, build_tree, build_tree_exec, emittable, lemma_nodes_view, node_view, nodes_view, pack_cats,
    packed_spec, recase_placeholders, recase_spec, table_for, table_of, Binding, Case, Emitter, Node, NodeV,
};
use crate::emit::swift::{branch_ok, dotted_of, lemma_build_tree_ok, lemma_node_ok_branch, node_ok, value_for};
use crate::error::Error;
use crate::exchange::{flat, lemma_flat_push};
use crate::ir::{messages_view, Ir, Kind, Message, MessageValue, MsgV, ParamType, ValV};
use crate::json::{fields_get, fields_insert, insert_field, keys_sorted, lemma_fields_insert, json_view, lemma_view_fields, view_fields, Json, JsonV};
use crate::text::{chars_of, copy_string, join, owned, push_char, push_str, seq_join, views};

verus! {

pub struct TsEmitter {
    pub callable: bool,
    pub case: Case,
    pub binding: Binding,
}

pub open spec fn hex_lower(d: int) -> char {
    if d < 10 {
        (d + 48) as char
    } else {
        (d - 10 + 97) as char
    }
}

/// The JSON escape of one character in a string (`serde_json`'s rules):
/// quote and backslash, the short forms `\b \f \n \r \t`, and `\u00XX` for
/// the other control characters.
pub open spec fn json_esc(c: char) -> Seq<char> {
    if c == '"' {
        seq!['\\', '"']
    } else if c == '\\' {
        seq!['\\', '\\']
    } else if c == '\x08' {
        seq!['\\', 'b']
    } else if c == '\x0c' {
        seq!['\\', 'f']
    } else if c == '\n' {
        seq!['\\', 'n']
    } else if c == '\r' {
        seq!['\\', 'r']
    } else if c == '\t' {
        seq!['\\', 't']
    } else if (c as u32) < 32 {
        seq!['\\', 'u', '0', '0', hex_lower((c as u32) as int / 16), hex_lower((c as u32) as int % 16)]
    } else {
        seq![c]
    }
}

/// `s` as a JSON string literal.
pub open spec fn json_quote_spec(s: Seq<char>) -> Seq<char> {
    seq!['"'] + flat(s, |c: char| json_esc(c)) + seq!['"']
}

fn hex_char(d: u32) -> (r: char)
    requires
        d < 16,
    ensures
        r == hex_lower(d as int),
{
    if d < 10 {
        ((d as u8) + 48) as char
    } else {
        ((d as u8) - 10 + 97) as char
    }
}

/// `s` as a JSON string literal (see `json_quote_spec`).
pub fn json_quote(s: &str) -> (r: String)
    ensures
        r@ == json_quote_spec(s@),
{
    let v = chars_of(s);
    let ghost f = |c: char| json_esc(c);
    let mut out = String::new();
    push_char(&mut out, '"');
    let ghost head = out@;
    let mut i: usize = 0;
    proof {
        assert(s@.take(0) =~= Seq::<char>::empty());
        assert(out@ =~= head + flat(s@.take(0), f));
    }
    while i < v.len()
        invariant
            i <= v@.len(),
            v@ == s@,
            head == seq!['"'],
            f == (|c: char| json_esc(c)),
            out@ == head + flat(s@.take(i as int), f),
        decreases v@.len() - i,
    {
        let c = v[i];
        let ghost before = out@;
        proof {
            assert(s@.take(i + 1) =~= s@.take(i as int).push(c));
            lemma_flat_push(s@.take(i as int), c, f);
        }
        if c == '"' {
            push_char(&mut out, '\\');
            push_char(&mut out, '"');
        } else if c == '\\' {
            push_char(&mut out, '\\');
            push_char(&mut out, '\\');
        } else if c == '\x08' {
            push_char(&mut out, '\\');
            push_char(&mut out, 'b');
        } else if c == '\x0c' {
            push_char(&mut out, '\\');
            push_char(&mut out, 'f');
        } else if c == '\n' {
            push_char(&mut out, '\\');
            push_char(&mut out, 'n');
        } else if c == '\r' {
            push_char(&mut out, '\\');
            push_char(&mut out, 'r');
        } else if c == '\t' {
            push_char(&mut out, '\\');
            push_char(&mut out, 't');
        } else if (c as u32) < 0x20 {
            let n = c as u32;
            push_char(&mut out, '\\');
            push_char(&mut out, 'u');
            push_char(&mut out, '0');
            push_char(&mut out, '0');
            push_char(&mut out, hex_char(n / 16));
            push_char(&mut out, hex_char(n % 16));
        } else {
            push_char(&mut out, c);
        }
        proof {
            assert(out@ =~= before + json_esc(c));
        }
        i = i + 1;
    }
    push_char(&mut out, '"');
    proof {
        assert(s@.take(v@.len() as int) =~= s@);
    }
    out
}

/// One more level of two-space indentation.
pub open spec fn deeper(ind: Seq<char>) -> Seq<char> {
    ind + seq![' ', ' ']
}

/// A JSON value as `serde_json::to_string_pretty` writes it, with `ind` the
/// indentation of the line it starts on (two spaces per level, `": "` after
/// keys, one member per line).
pub open spec fn pretty(v: JsonV, ind: Seq<char>) -> Seq<char>
    decreases v, 1int,
{
    match v {
        JsonV::Null => "null"@,
        JsonV::Bool(b) => if b { "true"@ } else { "false"@ },
        JsonV::Num(t) => t,
        JsonV::Str(s) => json_quote_spec(s),
        JsonV::Arr(items) => if items.len() == 0 {
            "[]"@
        } else {
            "[\n"@ + seq_join(pretty_items(items, deeper(ind)), ",\n"@) + "\n"@ + ind + "]"@
        },
        JsonV::Obj(fs) => if fs.len() == 0 {
            "{}"@
        } else {
            "{\n"@ + seq_join(pretty_members(fs, deeper(ind)), ",\n"@) + "\n"@ + ind + "}"@
        },
    }
}

pub open spec fn pretty_items(items: Seq<JsonV>, ind: Seq<char>) -> Seq<Seq<char>>
    decreases items, 0int,
{
    if items.len() == 0 {
        Seq::empty()
    } else {
        pretty_items(items.subrange(0, items.len() - 1), ind).push(ind + pretty(items[items.len() - 1], ind))
    }
}

pub open spec fn pretty_members(fs: Seq<(Seq<char>, JsonV)>, ind: Seq<char>) -> Seq<Seq<char>>
    decreases fs, 0int,
{
    if fs.len() == 0 {
        Seq::empty()
    } else {
        pretty_members(fs.subrange(0, fs.len() - 1), ind).push(
            ind + json_quote_spec(fs[fs.len() - 1].0) + ": "@ + pretty(fs[fs.len() - 1].1, ind),
        )
    }
}

/// A JSON value written as `serde_json::to_string_pretty` writes it (see `pretty`).
pub fn pretty_json(v: &Json, ind: &String) -> (r: String)
    ensures
        r@ == pretty(v@, ind@),
    decreases v,
{
    match v {
        Json::Null => owned("null"),
        Json::Bool(b) => if *b { owned("true") } else { owned("false") },
        Json::Number(t) => copy_string(t),
        Json::Str(s) => json_quote(s.as_str()),
        Json::Array(items) => pretty_arr(items, ind),
        Json::Object(fs) => pretty_obj(fs, ind),
    }
}

fn pretty_arr(items: &Vec<Json>, ind: &String) -> (r: String)
    ensures
        r@ == pretty(JsonV::Arr(crate::json::view_arr(items@)), ind@),
    decreases items,
{
    let ghost iv = crate::json::view_arr(items@);
    proof {
        crate::json::lemma_view_arr(items@);
    }
    if items.len() == 0 {
        return owned("[]");
    }
    let mut inner = copy_string(ind);
    push_str(&mut inner, "  ");
    proof {
        reveal_strlit("  ");
        assert(inner@ =~= deeper(ind@));
        assert(iv.subrange(0, 0) =~= Seq::<JsonV>::empty());
    }
    let mut parts: Vec<String> = Vec::new();
    let mut i: usize = 0;
    while i < items.len()
        invariant
            i <= items@.len(),
            inner@ == deeper(ind@),
            iv == crate::json::view_arr(items@),
            iv.len() == items@.len(),
            forall|j: int| 0 <= j < items@.len() ==> #[trigger] iv[j] == json_view(items@[j]),
            views(parts@) == pretty_items(iv.subrange(0, i as int), inner@),
        decreases items@.len() - i,
    {
        proof {
            assert(iv.subrange(0, i + 1).subrange(0, i as int) =~= iv.subrange(0, i as int));
            assert(iv.subrange(0, i + 1)[i as int] == iv[i as int]);
            assert(decreases_to!(items => items[i as int]));
        }
        let mut e = copy_string(&inner);
        push_str(&mut e, pretty_json(&items[i], &inner).as_str());
        let ghost before = parts@;
        parts.push(e);
        proof {
            assert(views(parts@) =~= views(before).push(e@));
        }
        i = i + 1;
    }
    proof {
        assert(iv.subrange(0, items@.len() as int) =~= iv);
    }
    let mut s = owned("[\n");
    push_str(&mut s, join(&parts, ",\n").as_str());
    push_str(&mut s, "\n");
    push_str(&mut s, ind.as_str());
    push_str(&mut s, "]");
    s
}

fn pretty_obj(fs: &Vec<(String, Json)>, ind: &String) -> (r: String)
    ensures
        r@ == pretty(JsonV::Obj(view_fields(fs@)), ind@),
    decreases fs,
{
    let ghost fv = view_fields(fs@);
    proof {
        lemma_view_fields(fs@);
    }
    if fs.len() == 0 {
        return owned("{}");
    }
    let mut inner = copy_string(ind);
    push_str(&mut inner, "  ");
    proof {
        reveal_strlit("  ");
        assert(inner@ =~= deeper(ind@));
        assert(fv.subrange(0, 0) =~= Seq::<(Seq<char>, JsonV)>::empty());
    }
    let mut parts: Vec<String> = Vec::new();
    let mut i: usize = 0;
    while i < fs.len()
        invariant
            i <= fs@.len(),
            inner@ == deeper(ind@),
            fv == view_fields(fs@),
            fv.len() == fs@.len(),
            forall|j: int| 0 <= j < fs@.len() ==> #[trigger] fv[j] == (fs@[j].0@, json_view(fs@[j].1)),
            views(parts@) == pretty_members(fv.subrange(0, i as int), inner@),
        decreases fs@.len() - i,
    {
        proof {
            assert(fv.subrange(0, i + 1).subrange(0, i as int) =~= fv.subrange(0, i as int));
            assert(fv.subrange(0, i + 1)[i as int] == fv[i as int]);
            assert(decreases_to!(fs => fs[i as int]));
        }
        let mut e = copy_string(&inner);
        push_str(&mut e, json_quote(fs[i].0.as_str()).as_str());
        push_str(&mut e, ": ");
        push_str(&mut e, pretty_json(&fs[i].1, &inner).as_str());
        let ghost before = parts@;
        parts.push(e);
        proof {
            assert(views(parts@) =~= views(before).push(e@));
        }
        i = i + 1;
    }
    proof {
        assert(fv.subrange(0, fs@.len() as int) =~= fv);
    }
    let mut s = owned("{\n");
    push_str(&mut s, join(&parts, ",\n").as_str());
    push_str(&mut s, "\n");
    push_str(&mut s, ind.as_str());
    push_str(&mut s, "}");
    s
}

/// The plural forms of a message as a JSON object, re-cased.
pub open spec fn forms_obj(forms: Seq<(Seq<char>, Seq<char>)>, c: Case) -> Seq<(Seq<char>, JsonV)>
    decreases forms.len(),
{
    if forms.len() == 0 {
        Seq::empty()
    } else {
        fields_insert(forms_obj(forms.drop_last(), c), forms.last().0, JsonV::Str(recase_spec(forms.last().1, c)))
    }
}

/// A message's baked value for one locale: its re-cased string, its re-cased
/// plural forms, or `null` when the locale has no value.
pub open spec fn data_value(m: MsgV, loc: Seq<char>, c: Case) -> JsonV {
    match crate::json::fields_get(m.values, loc) {
        Some(ValV::Plain(s)) => JsonV::Str(recase_spec(s, c)),
        Some(ValV::Plural(forms)) => JsonV::Obj(forms_obj(forms, c)),
        None => JsonV::Null,
    }
}

/// One locale's baked table: dotted key to value, for the first `n` messages.
pub open spec fn locale_data(msgs: Seq<MsgV>, n: int, loc: Seq<char>, c: Case) -> Seq<(Seq<char>, JsonV)>
    decreases n,
{
    if n <= 0 {
        Seq::empty()
    } else {
        fields_insert(locale_data(msgs, n - 1, loc, c), dotted_of(msgs[n - 1]), data_value(msgs[n - 1], loc, c))
    }
}

/// The baked `DATA` table of the first `n` locales.
pub open spec fn data_spec(locales: Seq<Seq<char>>, n: int, msgs: Seq<MsgV>, c: Case) -> Seq<(Seq<char>, JsonV)>
    decreases n,
{
    if n <= 0 {
        Seq::empty()
    } else {
        fields_insert(
            data_spec(locales, n - 1, msgs, c),
            locales[n - 1],
            JsonV::Obj(locale_data(msgs, msgs.len() as int, locales[n - 1], c)),
        )
    }
}

fn data_value_exec(m: &Message, loc: &str, case: Case) -> (r: Json)
    ensures
        r@ == data_value(m@, loc@, case),
{
    match value_for(m, loc) {
        Some(MessageValue::Plain(s)) => Json::Str(recase_placeholders(s.as_str(), case)),
        Some(MessageValue::Plural(forms)) => {
            let ghost fv = forms@.map_values(|p: (String, String)| (p.0@, p.1@));
            let mut o: Vec<(String, Json)> = Vec::new();
            proof {
                assert(view_fields(o@) =~= Seq::<(Seq<char>, JsonV)>::empty());
                assert(fv.take(0) =~= Seq::<(Seq<char>, Seq<char>)>::empty());
            }
            let mut i: usize = 0;
            while i < forms.len()
                invariant
                    i <= forms@.len(),
                    fv == forms@.map_values(|p: (String, String)| (p.0@, p.1@)),
                    view_fields(o@) == forms_obj(fv.take(i as int), case),
                decreases forms@.len() - i,
            {
                proof {
                    assert(fv.take(i + 1).drop_last() =~= fv.take(i as int));
                    assert(fv.take(i + 1).last() == fv[i as int]);
                }
                let t = recase_placeholders(forms[i].1.as_str(), case);
                insert_field(&mut o, copy_string(&forms[i].0), Json::Str(t));
                i = i + 1;
            }
            proof {
                assert(fv.take(forms@.len() as int) =~= fv);
            }
            Json::Object(o)
        },
        None => Json::Null,
    }
}

/// The baked `DATA` table (see `data_spec`).
pub fn build_data(ir: &Ir, case: Case) -> (r: Json)
    ensures
        r@ == JsonV::Obj(data_spec(views(ir.locales@), ir.locales@.len() as int, messages_view(ir.messages@), case)),
{
    let ghost lv = views(ir.locales@);
    let ghost mv = messages_view(ir.messages@);
    let mut top: Vec<(String, Json)> = Vec::new();
    proof {
        assert(view_fields(top@) =~= Seq::<(Seq<char>, JsonV)>::empty());
    }
    let mut li: usize = 0;
    while li < ir.locales.len()
        invariant
            li <= ir.locales@.len(),
            lv == views(ir.locales@),
            mv == messages_view(ir.messages@),
            view_fields(top@) == data_spec(lv, li as int, mv, case),
        decreases ir.locales@.len() - li,
    {
        let loc = &ir.locales[li];
        let mut inner: Vec<(String, Json)> = Vec::new();
        proof {
            assert(view_fields(inner@) =~= Seq::<(Seq<char>, JsonV)>::empty());
        }
        let mut k: usize = 0;
        while k < ir.messages.len()
            invariant
                k <= ir.messages@.len(),
                mv == messages_view(ir.messages@),
                view_fields(inner@) == locale_data(mv, k as int, loc@, case),
            decreases ir.messages@.len() - k,
        {
            let m = &ir.messages[k];
            proof {
                assert(mv[k as int] == m@);
            }
            let v = data_value_exec(m, loc.as_str(), case);
            let d = m.dotted();
            proof {
                assert(d@ == dotted_of(m@));
            }
            insert_field(&mut inner, d, v);
            k = k + 1;
        }
        proof {
            assert(lv[li as int] == loc@);
        }
        insert_field(&mut top, copy_string(loc), Json::Object(inner));
        li = li + 1;
    }
    Json::Object(top)
}

pub open spec fn ts_type_spec(t: ParamType) -> Seq<char> {
    match t {
        ParamType::Number => "number"@,
        ParamType::String => "string | number"@,
    }
}

/// The TypeScript type of a parameter: a number for a count, otherwise any
/// stringifiable value.
pub fn ts_type(t: ParamType) -> (r: &'static str)
    ensures
        r@ == ts_type_spec(t),
{
    match t {
        ParamType::Number => "number",
        ParamType::String => "string | number",
    }
}

pub open spec fn ts_param(c: Case, p: (Seq<char>, ParamType)) -> Seq<char> {
    apply_spec(c, p.0) + ": "@ + ts_type_spec(p.1)
}

/// The argument object's fields of a message's accessor.
pub open spec fn ts_args(m: MsgV, c: Case) -> Seq<char> {
    seq_join(m.params.map_values(|p: (Seq<char>, ParamType)| ts_param(c, p)), "; "@)
}

pub fn args(m: &Message, case: Case) -> (r: String)
    ensures
        r@ == ts_args(m@, case),
{
    let ghost pv = m@.params;
    let ghost f = |p: (Seq<char>, ParamType)| ts_param(case, p);
    let mut parts: Vec<String> = Vec::new();
    let mut i: usize = 0;
    while i < m.params.len()
        invariant
            i <= m.params@.len(),
            pv == m@.params,
            pv.len() == m.params@.len(),
            f == (|p: (Seq<char>, ParamType)| ts_param(case, p)),
            views(parts@) == pv.take(i as int).map_values(f),
        decreases m.params@.len() - i,
    {
        let p = &m.params[i];
        let mut s = case.apply(p.name.as_str());
        push_str(&mut s, ": ");
        push_str(&mut s, ts_type(p.ty));
        let ghost before = parts@;
        parts.push(s);
        proof {
            assert(pv[i as int] == (p.name@, p.ty));
            assert(views(parts@) =~= views(before).push(s@));
            assert(pv.take(i + 1).map_values(f) =~= pv.take(i as int).map_values(f).push(f(pv[i as int])));
        }
        i = i + 1;
    }
    proof {
        assert(pv.take(m.params@.len() as int) =~= pv);
    }
    join(&parts, "; ")
}

/// The type of a message's accessor.
pub open spec fn ts_sig(m: MsgV, callable: bool, c: Case) -> Seq<char> {
    if m.params.len() == 0 {
        if callable { "() => string"@ } else { "string"@ }
    } else {
        "(a: { "@ + ts_args(m, c) + " }) => string"@
    }
}

/// The type of a message's accessor (see `ts_sig`).
pub fn sig(m: &Message, callable: bool, case: Case) -> (r: String)
    ensures
        r@ == ts_sig(m@, callable, case),
{
    if m.params.len() == 0 {
        owned(if callable { "() => string" } else { "string" })
    } else {
        let mut s = owned("(a: { ");
        push_str(&mut s, args(m, case).as_str());
        push_str(&mut s, " }) => string");
        s
    }
}

/// One member of the accessor interface, indented by `ind`.
pub open spec fn type_line(k: Seq<char>, node: NodeV, ind: Seq<char>, msgs: Seq<MsgV>, callable: bool, c: Case) -> Seq<char>
    decreases node,
{
    match node {
        NodeV::Leaf(i) => ind + apply_spec(c, k) + ": "@ + ts_sig(msgs[i], callable, c) + ";"@,
        NodeV::Branch(b) => ind + apply_spec(c, k) + ": {\n"@ + seq_join(type_lines(b, deeper(ind), msgs, callable, c), "\n"@)
            + "\n"@ + ind + "};"@,
    }
}

pub open spec fn type_lines(b: Seq<(Seq<char>, NodeV)>, ind: Seq<char>, msgs: Seq<MsgV>, callable: bool, c: Case) -> Seq<Seq<char>>
    decreases b,
{
    if b.len() == 0 {
        Seq::empty()
    } else {
        type_lines(b.subrange(0, b.len() - 1), ind, msgs, callable, c).push(
            type_line(b[b.len() - 1].0, b[b.len() - 1].1, ind, msgs, callable, c),
        )
    }
}

/// The members of the accessor interface for a namespace (see `type_lines`).
pub fn render_type(b: &Vec<(String, Node)>, ind: &String, ir: &Ir, callable: bool, case: Case) -> (r: String)
    requires
        branch_ok(nodes_view(b@), ir.messages@.len() as int),
    ensures
        r@ == seq_join(type_lines(nodes_view(b@), ind@, messages_view(ir.messages@), callable, case), "\n"@),
    decreases b@,
{
    let ghost bv = nodes_view(b@);
    let ghost mv = messages_view(ir.messages@);
    proof {
        lemma_nodes_view(b@);
        assert(bv.subrange(0, 0) =~= Seq::<(Seq<char>, NodeV)>::empty());
    }
    let mut inner = copy_string(ind);
    push_str(&mut inner, "  ");
    proof {
        reveal_strlit("  ");
        assert(inner@ =~= deeper(ind@));
    }
    let mut lines: Vec<String> = Vec::new();
    let mut i: usize = 0;
    while i < b.len()
        invariant
            i <= b@.len(),
            bv == nodes_view(b@),
            bv.len() == b@.len(),
            mv == messages_view(ir.messages@),
            inner@ == deeper(ind@),
            branch_ok(bv, ir.messages@.len() as int),
            forall|j: int| 0 <= j < b@.len() ==> #[trigger] bv[j] == (b@[j].0@, node_view(b@[j].1)),
            views(lines@) == type_lines(bv.subrange(0, i as int), ind@, mv, callable, case),
        decreases b@.len() - i,
    {
        let ghost before = views(lines@);
        proof {
            assert(bv.subrange(0, i + 1).subrange(0, i as int) =~= bv.subrange(0, i as int));
            assert(bv.subrange(0, i + 1)[i as int] == bv[i as int]);
            assert(node_ok(bv[i as int].1, ir.messages@.len() as int));
        }
        let k = &b[i].0;
        let mut line = copy_string(ind);
        push_str(&mut line, case.apply(k.as_str()).as_str());
        match &b[i].1 {
            Node::Leaf(mi) => {
                let m = &ir.messages[*mi];
                proof {
                    assert(mv[*mi as int] == m@);
                }
                push_str(&mut line, ": ");
                push_str(&mut line, sig(m, callable, case).as_str());
                push_str(&mut line, ";");
                proof {
                    assert(bv[i as int] == (k@, NodeV::Leaf(*mi as int)));
                    assert(line@ =~= type_line(k@, NodeV::Leaf(*mi as int), ind@, mv, callable, case));
                }
            },
            Node::Branch(c) => {
                proof {
                    assert(decreases_to!(b@ => b@[i as int]));
                    assert(decreases_to!(b@[i as int] => b@[i as int].1));
                    assert(decreases_to!(b@[i as int].1 => c));
                    assert(node_view(b@[i as int].1) == NodeV::Branch(nodes_view(c@)));
                    lemma_node_ok_branch(nodes_view(c@), ir.messages@.len() as int);
                }
                let body = render_type(c, &inner, ir, callable, case);
                push_str(&mut line, ": {\n");
                push_str(&mut line, body.as_str());
                push_str(&mut line, "\n");
                push_str(&mut line, ind.as_str());
                push_str(&mut line, "};");
                proof {
                    assert(bv[i as int] == (k@, NodeV::Branch(nodes_view(c@))));
                    assert(line@ =~= type_line(k@, NodeV::Branch(nodes_view(c@)), ind@, mv, callable, case));
                }
            },
        }
        lines.push(line);
        proof {
            assert(views(lines@) =~= before.push(line@));
        }
        i = i + 1;
    }
    proof {
        assert(bv.subrange(0, b@.len() as int) =~= bv);
    }
    join(&lines, "\n")
}

/// The accessor of one message named `k2`: typed for TypeScript, plain for JavaScript.
pub open spec fn acc_leaf(k2: Seq<char>, m: MsgV, ind: Seq<char>, callable: bool, c: Case, typed: bool) -> Seq<char> {
    let key = json_quote_spec(dotted_of(m));
    match m.kind {
        Kind::Plain => if m.params.len() == 0 {
            if callable {
                ind + k2 + ": () => D["@ + key + if typed { "] as string,"@ } else { "],"@ }
            } else {
                ind + k2 + ": D["@ + key + if typed { "] as string,"@ } else { "],"@ }
            }
        } else if typed {
            ind + k2 + ": (a: { "@ + ts_args(m, c) + " }) => interp(D["@ + key + "] as string, a),"@
        } else {
            ind + k2 + ": (a) => interp(D["@ + key + "], a),"@
        },
        Kind::Plural => if typed {
            ind + k2 + ": (a: { "@ + ts_args(m, c) + " }) => plural(locale, D["@ + key + "] as Forms, a."@ + apply_spec(c, "count"@)
                + ", a),"@
        } else {
            ind + k2 + ": (a) => plural(locale, D["@ + key + "], a."@ + apply_spec(c, "count"@) + ", a),"@
        },
    }
}

/// One member of the accessor object, indented by `ind`.
pub open spec fn acc_line(k: Seq<char>, node: NodeV, ind: Seq<char>, msgs: Seq<MsgV>, callable: bool, c: Case, typed: bool) -> Seq<char>
    decreases node,
{
    match node {
        NodeV::Leaf(i) => acc_leaf(apply_spec(c, k), msgs[i], ind, callable, c, typed),
        NodeV::Branch(b) => ind + apply_spec(c, k) + ": {\n"@ + seq_join(acc_lines(b, deeper(ind), msgs, callable, c, typed), "\n"@)
            + "\n"@ + ind + "},"@,
    }
}

pub open spec fn acc_lines(b: Seq<(Seq<char>, NodeV)>, ind: Seq<char>, msgs: Seq<MsgV>, callable: bool, c: Case, typed: bool) -> Seq<Seq<char>>
    decreases b,
{
    if b.len() == 0 {
        Seq::empty()
    } else {
        acc_lines(b.subrange(0, b.len() - 1), ind, msgs, callable, c, typed).push(
            acc_line(b[b.len() - 1].0, b[b.len() - 1].1, ind, msgs, callable, c, typed),
        )
    }
}

fn acc_leaf_exec(k2: &str, m: &Message, ind: &String, callable: bool, case: Case, typed: bool) -> (r: String)
    ensures
        r@ == acc_leaf(k2@, m@, ind@, callable, case, typed),
{
    let d = m.dotted();
    let key = json_quote(d.as_str());
    proof {
        assert(d@ == dotted_of(m@));
    }
    let mut s = copy_string(ind);
    push_str(&mut s, k2);
    match m.kind {
        Kind::Plain => {
            if m.params.len() == 0 {
                push_str(&mut s, if callable { ": () => D[" } else { ": D[" });
                push_str(&mut s, key.as_str());
                push_str(&mut s, if typed { "] as string," } else { "]," });
            } else if typed {
                push_str(&mut s, ": (a: { ");
                push_str(&mut s, args(m, case).as_str());
                push_str(&mut s, " }) => interp(D[");
                push_str(&mut s, key.as_str());
                push_str(&mut s, "] as string, a),");
            } else {
                push_str(&mut s, ": (a) => interp(D[");
                push_str(&mut s, key.as_str());
                push_str(&mut s, "], a),");
            }
        },
        Kind::Plural => {
            let count = case.apply("count");
            if typed {
                push_str(&mut s, ": (a: { ");
                push_str(&mut s, args(m, case).as_str());
                push_str(&mut s, " }) => plural(locale, D[");
                push_str(&mut s, key.as_str());
                push_str(&mut s, "] as Forms, a.");
            } else {
                push_str(&mut s, ": (a) => plural(locale, D[");
                push_str(&mut s, key.as_str());
                push_str(&mut s, "], a.");
            }
            push_str(&mut s, count.as_str());
            push_str(&mut s, ", a),");
        },
    }
    proof {
        assert(s@ =~= acc_leaf(k2@, m@, ind@, callable, case, typed));
    }
    s
}

/// The members of the accessor object for a namespace (see `acc_lines`).
pub fn render_accessor(b: &Vec<(String, Node)>, ind: &String, ir: &Ir, callable: bool, case: Case, typed: bool) -> (r: String)
    requires
        branch_ok(nodes_view(b@), ir.messages@.len() as int),
    ensures
        r@ == seq_join(acc_lines(nodes_view(b@), ind@, messages_view(ir.messages@), callable, case, typed), "\n"@),
    decreases b@,
{
    let ghost bv = nodes_view(b@);
    let ghost mv = messages_view(ir.messages@);
    proof {
        lemma_nodes_view(b@);
        assert(bv.subrange(0, 0) =~= Seq::<(Seq<char>, NodeV)>::empty());
    }
    let mut inner = copy_string(ind);
    push_str(&mut inner, "  ");
    proof {
        reveal_strlit("  ");
        assert(inner@ =~= deeper(ind@));
    }
    let mut lines: Vec<String> = Vec::new();
    let mut i: usize = 0;
    while i < b.len()
        invariant
            i <= b@.len(),
            bv == nodes_view(b@),
            bv.len() == b@.len(),
            mv == messages_view(ir.messages@),
            inner@ == deeper(ind@),
            branch_ok(bv, ir.messages@.len() as int),
            forall|j: int| 0 <= j < b@.len() ==> #[trigger] bv[j] == (b@[j].0@, node_view(b@[j].1)),
            views(lines@) == acc_lines(bv.subrange(0, i as int), ind@, mv, callable, case, typed),
        decreases b@.len() - i,
    {
        let ghost before = views(lines@);
        proof {
            assert(bv.subrange(0, i + 1).subrange(0, i as int) =~= bv.subrange(0, i as int));
            assert(bv.subrange(0, i + 1)[i as int] == bv[i as int]);
            assert(node_ok(bv[i as int].1, ir.messages@.len() as int));
        }
        let k = &b[i].0;
        let k2 = case.apply(k.as_str());
        let line = match &b[i].1 {
            Node::Leaf(mi) => {
                let m = &ir.messages[*mi];
                proof {
                    assert(mv[*mi as int] == m@);
                    assert(bv[i as int] == (k@, NodeV::Leaf(*mi as int)));
                }
                acc_leaf_exec(k2.as_str(), m, ind, callable, case, typed)
            },
            Node::Branch(c) => {
                proof {
                    assert(decreases_to!(b@ => b@[i as int]));
                    assert(decreases_to!(b@[i as int] => b@[i as int].1));
                    assert(decreases_to!(b@[i as int].1 => c));
                    assert(node_view(b@[i as int].1) == NodeV::Branch(nodes_view(c@)));
                    lemma_node_ok_branch(nodes_view(c@), ir.messages@.len() as int);
                    assert(bv[i as int] == (k@, NodeV::Branch(nodes_view(c@))));
                }
                let body = render_accessor(c, &inner, ir, callable, case, typed);
                let mut line = copy_string(ind);
                push_str(&mut line, k2.as_str());
                push_str(&mut line, ": {\n");
                push_str(&mut line, body.as_str());
                push_str(&mut line, "\n");
                push_str(&mut line, ind.as_str());
                push_str(&mut line, "},");
                proof {
                    assert(line@ =~= acc_line(k@, NodeV::Branch(nodes_view(c@)), ind@, mv, callable, case, typed));
                }
                line
            },
        };
        proof {
            assert(line@ == acc_line(bv[i as int].0, bv[i as int].1, ind@, mv, callable, case, typed));
        }
        lines.push(line);
        proof {
            assert(views(lines@) =~= before.push(line@));
        }
        i = i + 1;
    }
    proof {
        assert(bv.subrange(0, b@.len() as int) =~= bv);
    }
    join(&lines, "\n")
}

pub open spec fn pack_line(l: Seq<char>, t: crate::ir::PluralTable, modulo: bool) -> Seq<char> {
    "  "@ + json_quote_spec(l) + ": "@ + json_quote_spec(packed_spec(if modulo { t.modulo@ } else { t.small@ })) + ","@
}

/// Each locale's small (or mod-100) category table, packed into a string.
pub open spec fn pack_spec(ir: &Ir, modulo: bool) -> Seq<char> {
    seq_join(views(ir.locales@).map_values(|l: Seq<char>| pack_line(l, table_for(ir, l), modulo)), "\n"@)
}

pub fn pack(ir: &Ir, modulo: bool) -> (r: String)
    requires
        emittable(ir),
    ensures
        r@ == pack_spec(ir, modulo),
{
    let ghost lv = views(ir.locales@);
    let ghost f = |l: Seq<char>| pack_line(l, table_for(ir, l), modulo);
    let mut parts: Vec<String> = Vec::new();
    let mut i: usize = 0;
    while i < ir.locales.len()
        invariant
            i <= ir.locales@.len(),
            emittable(ir),
            lv == views(ir.locales@),
            f == (|l: Seq<char>| pack_line(l, table_for(ir, l), modulo)),
            views(parts@) == lv.take(i as int).map_values(f),
        decreases ir.locales@.len() - i,
    {
        let t = table_of(ir, i);
        let packed = if modulo { pack_cats(&t.modulo) } else { pack_cats(&t.small) };
        let mut e = owned("  ");
        push_str(&mut e, json_quote(ir.locales[i].as_str()).as_str());
        push_str(&mut e, ": ");
        push_str(&mut e, json_quote(packed.as_str()).as_str());
        push_str(&mut e, ",");
        let ghost before = parts@;
        parts.push(e);
        proof {
            assert(lv[i as int] == ir.locales@[i as int]@);
            assert(e@ == f(lv[i as int]));
            assert(views(parts@) =~= views(before).push(e@));
            assert(lv.take(i + 1).map_values(f) =~= lv.take(i as int).map_values(f).push(f(lv[i as int])));
        }
        i = i + 1;
    }
    proof {
        assert(lv.take(ir.locales@.len() as int) =~= lv);
    }
    join(&parts, "\n")
}

/// The `Locale` union: each tag in double quotes, joined with ` | `.
pub open spec fn locale_union(ir: &Ir) -> Seq<char> {
    seq_join(views(ir.locales@).map_values(|l: Seq<char>| "\""@ + l + "\""@), " | "@)
}

fn locale_union_exec(ir: &Ir) -> (r: String)
    ensures
        r@ == locale_union(ir),
{
    let ghost lv = views(ir.locales@);
    let ghost f = |l: Seq<char>| "\""@ + l + "\""@;
    let mut parts: Vec<String> = Vec::new();
    let mut i: usize = 0;
    while i < ir.locales.len()
        invariant
            i <= ir.locales@.len(),
            lv == views(ir.locales@),
            f == (|l: Seq<char>| "\""@ + l + "\""@),
            views(parts@) == lv.take(i as int).map_values(f),
        decreases ir.locales@.len() - i,
    {
        let mut e = owned("\"");
        push_str(&mut e, ir.locales[i].as_str());
        push_str(&mut e, "\"");
        let ghost before = parts@;
        parts.push(e);
        proof {
            assert(lv[i as int] == ir.locales@[i as int]@);
            assert(views(parts@) =~= views(before).push(e@));
            assert(lv.take(i + 1).map_values(f) =~= lv.take(i as int).map_values(f).push(f(lv[i as int])));
        }
        i = i + 1;
    }
    proof {
        assert(lv.take(ir.locales@.len() as int) =~= lv);
    }
    join(&parts, " | ")
}

/// The plural runtime of the TypeScript module.
pub const TS_RUNTIME: &'static str = "
type Forms = Partial<Record<\"zero\" | \"one\" | \"two\" | \"few\" | \"many\" | \"other\", string>>;

// Baked from CLDR via ICU4X at generate time. Pure table lookup: never calls
// Intl.PluralRules (which Hermes / React Native does not implement).
const PCODE: Record<string, keyof Forms> = {
  z: \"zero\", \"1\": \"one\", \"2\": \"two\", f: \"few\", m: \"many\", o: \"other\",
};

function pluralCategory(locale: Locale, n: number): keyof Forms {
  const i = Math.abs(Math.trunc(n));
  const table = i < 100 ? PCAT_SMALL[locale] : PCAT_MOD[locale];
  return PCODE[table[i < 100 ? i : i % 100]];
}

function interp(t: string, a: Record<string, string | number>): string {
  return t.replace(/\\{\\{(\\w+)\\}\\}/g, (_, k) => String(a[k]));
}

function plural(locale: Locale, forms: Forms, n: number, a: Record<string, string | number>): string {
  return interp(forms[pluralCategory(locale, n)] ?? forms.other ?? \"\", a);
}
";

/// The same runtime in plain JavaScript, for the package's `index.js`.
pub const JS_RUNTIME: &'static str = "
const PCODE = {
  z: \"zero\", \"1\": \"one\", \"2\": \"two\", f: \"few\", m: \"many\", o: \"other\",
};

function pluralCategory(locale, n) {
  const i = Math.abs(Math.trunc(n));
  const table = i < 100 ? PCAT_SMALL[locale] : PCAT_MOD[locale];
  return PCODE[table[i < 100 ? i : i % 100]];
}

function interp(t, a) {
  return t.replace(/\\{\\{(\\w+)\\}\\}/g, (_, k) => String(a[k]));
}

function plural(locale, forms, n, a) {
  return interp(forms[pluralCategory(locale, n)] ?? forms.other ?? \"\", a);
}
";

/// The accessor tree of an IR.
pub open spec fn tree_of(ir: &Ir) -> Seq<(Seq<char>, NodeV)> {
    build_tree(messages_view(ir.messages@), ir.messages@.len() as int)
}

/// The baked `DATA` table of an IR, pretty-printed.
pub open spec fn data_text(ir: &Ir, c: Case) -> Seq<char> {
    pretty(JsonV::Obj(data_spec(views(ir.locales@), ir.locales@.len() as int, messages_view(ir.messages@), c)), Seq::empty())
}

/// The TypeScript module of an IR.
pub open spec fn ts_emit_spec(callable: bool, c: Case, ty: Seq<char>, factory: Seq<char>, ir: &Ir) -> Seq<char> {
    let msgs = messages_view(ir.messages@);
    "// AUTO-GENERATED by stele \u{2014} do not edit.\n"@ + "// Source of truth: locales/*.json\n\n"@ + "export type Locale = "@
        + locale_union(ir) + ";\n\n"@ + "export interface "@ + ty + " {\n"@ + seq_join(type_lines(tree_of(ir), "  "@, msgs, callable, c), "\n"@)
        + "\n}\n"@ + "\nconst PCAT_SMALL: Record<Locale, string> = {\n"@ + pack_spec(ir, false) + "\n};\n"@
        + "const PCAT_MOD: Record<Locale, string> = {\n"@ + pack_spec(ir, true) + "\n};\n"@ + TS_RUNTIME@
        + "\nconst DATA: Record<Locale, Record<string, string | Forms>> = "@ + data_text(ir, c) + ";\n"@
        + "\nexport function "@ + factory + "(locale: Locale): "@ + ty + " {\n"@ + "  const D = DATA[locale];\n"@
        + "  return {\n"@ + seq_join(acc_lines(tree_of(ir), "    "@, msgs, callable, c, true), "\n"@) + "\n  };\n}\n"@
}

/// The tree of the IR, known to have only messages as leaves.
fn tree_checked(ir: &Ir) -> (r: Vec<(String, Node)>)
    requires
        emittable(ir),
    ensures
        nodes_view(r@) == tree_of(ir),
        branch_ok(nodes_view(r@), ir.messages@.len() as int),
{
    let tree = build_tree_exec(ir);
    let ghost msgs = messages_view(ir.messages@);
    proof {
        assert forall|i: int| 0 <= i < msgs.len() implies #[trigger] msgs[i].path.len() > 0 by {
            assert(msgs[i] == ir.messages@[i]@);
        }
        lemma_build_tree_ok(msgs, msgs.len() as int, msgs.len() as int);
    }
    tree
}

impl Emitter for TsEmitter {
    /// The TypeScript module (see `ts_emit_spec`).
    fn emit(&self, ir: &Ir) -> (r: String)
        ensures
            r@ == ts_emit_spec(self.callable, self.case, self.binding.ty@, "create"@ + self.binding.ty@, ir),
    {
        let tree = tree_checked(ir);
        let two = owned("  ");
        let four = owned("    ");
        let empty = String::new();
        let data = build_data(ir, self.case);
        let mut out = String::new();
        push_str(&mut out, "// AUTO-GENERATED by stele \u{2014} do not edit.\n");
        push_str(&mut out, "// Source of truth: locales/*.json\n\n");
        push_str(&mut out, "export type Locale = ");
        push_str(&mut out, locale_union_exec(ir).as_str());
        push_str(&mut out, ";\n\n");
        push_str(&mut out, "export interface ");
        push_str(&mut out, self.binding.ty.as_str());
        push_str(&mut out, " {\n");
        push_str(&mut out, render_type(&tree, &two, ir, self.callable, self.case).as_str());
        push_str(&mut out, "\n}\n");
        push_str(&mut out, "\nconst PCAT_SMALL: Record<Locale, string> = {\n");
        push_str(&mut out, pack(ir, false).as_str());
        push_str(&mut out, "\n};\n");
        push_str(&mut out, "const PCAT_MOD: Record<Locale, string> = {\n");
        push_str(&mut out, pack(ir, true).as_str());
        push_str(&mut out, "\n};\n");
        push_str(&mut out, TS_RUNTIME);
        push_str(&mut out, "\nconst DATA: Record<Locale, Record<string, string | Forms>> = ");
        push_str(&mut out, pretty_json(&data, &empty).as_str());
        push_str(&mut out, ";\n");
        push_str(&mut out, "\nexport function ");
        push_str(&mut out, self.binding.factory().as_str());
        push_str(&mut out, "(locale: Locale): ");
        push_str(&mut out, self.binding.ty.as_str());
        push_str(&mut out, " {\n");
        push_str(&mut out, "  const D = DATA[locale];\n");
        push_str(&mut out, "  return {\n");
        push_str(&mut out, render_accessor(&tree, &four, ir, self.callable, self.case, true).as_str());
        push_str(&mut out, "\n  };\n}\n");
        proof {
            assert(empty@ =~= Seq::<char>::empty());
        }
        out
    }

    /// Nothing beyond the shared identifier checks.
    fn validate(&self, ir: &Ir) -> (r: Result<(), Error>)
        ensures
            r is Ok,
    {
        Ok(())
    }
}

/// The declaration file of the package's core module.
pub open spec fn core_dts_spec(ir: &Ir, callable: bool, c: Case, ty: Seq<char>) -> Seq<char> {
    "// AUTO-GENERATED by stele \u{2014} do not edit.\n\n"@ + "export type Locale = "@ + locale_union(ir) + ";\n\n"@
        + "export interface "@ + ty + " {\n"@ + seq_join(type_lines(tree_of(ir), "  "@, messages_view(ir.messages@), callable, c), "\n"@)
        + "\n}\n\n"@ + "export declare function create"@ + ty + "(locale: Locale): "@ + ty + ";\n"@
}

/// The package's `index.d.ts`: the `Locale` union, the accessor interface and
/// the factory's declaration, with no runtime.
pub fn core_dts(ir: &Ir, callable: bool, case: Case, binding: &Binding) -> (r: String)
    requires
        emittable(ir),
    ensures
        r@ == core_dts_spec(ir, callable, case, binding.ty@),
{
    let tree = tree_checked(ir);
    let two = owned("  ");
    let mut out = String::new();
    push_str(&mut out, "// AUTO-GENERATED by stele \u{2014} do not edit.\n\n");
    push_str(&mut out, "export type Locale = ");
    push_str(&mut out, locale_union_exec(ir).as_str());
    push_str(&mut out, ";\n\n");
    push_str(&mut out, "export interface ");
    push_str(&mut out, binding.ty.as_str());
    push_str(&mut out, " {\n");
    push_str(&mut out, render_type(&tree, &two, ir, callable, case).as_str());
    push_str(&mut out, "\n}\n\n");
    push_str(&mut out, "export declare function create");
    push_str(&mut out, binding.ty.as_str());
    push_str(&mut out, "(locale: Locale): ");
    push_str(&mut out, binding.ty.as_str());
    push_str(&mut out, ";\n");
    out
}

/// The package's `index.js`: the same module as CommonJS, without types.
pub open spec fn core_js_spec(ir: &Ir, callable: bool, c: Case, ty: Seq<char>) -> Seq<char> {
    "// AUTO-GENERATED by stele \u{2014} do not edit.\n\"use strict\";\n\n"@ + "const PCAT_SMALL = {\n"@ + pack_spec(ir, false)
        + "\n};\n"@ + "const PCAT_MOD = {\n"@ + pack_spec(ir, true) + "\n};\n"@ + JS_RUNTIME@ + "\nconst DATA = "@
        + data_text(ir, c) + ";\n"@ + "\nfunction create"@ + ty + "(locale) {\n"@ + "  const D = DATA[locale];\n"@
        + "  return {\n"@ + seq_join(acc_lines(tree_of(ir), "    "@, messages_view(ir.messages@), callable, c, false), "\n"@)
        + "\n  };\n}\n\n"@ + "module.exports = { create"@ + ty + " };\n"@
}

/// The package's `index.js` (see `core_js_spec`).
pub fn core_js(ir: &Ir, callable: bool, case: Case, binding: &Binding) -> (r: String)
    requires
        emittable(ir),
    ensures
        r@ == core_js_spec(ir, callable, case, binding.ty@),
{
    let tree = tree_checked(ir);
    let four = owned("    ");
    let empty = String::new();
    let data = build_data(ir, case);
    let mut out = String::new();
    push_str(&mut out, "// AUTO-GENERATED by stele \u{2014} do not edit.\n\"use strict\";\n\n");
    push_str(&mut out, "const PCAT_SMALL = {\n");
    push_str(&mut out, pack(ir, false).as_str());
    push_str(&mut out, "\n};\n");
    push_str(&mut out, "const PCAT_MOD = {\n");
    push_str(&mut out, pack(ir, true).as_str());
    push_str(&mut out, "\n};\n");
    push_str(&mut out, JS_RUNTIME);
    push_str(&mut out, "\nconst DATA = ");
    push_str(&mut out, pretty_json(&data, &empty).as_str());
    push_str(&mut out, ";\n");
    push_str(&mut out, "\nfunction create");
    push_str(&mut out, binding.ty.as_str());
    push_str(&mut out, "(locale) {\n");
    push_str(&mut out, "  const D = DATA[locale];\n");
    push_str(&mut out, "  return {\n");
    push_str(&mut out, render_accessor(&tree, &four, ir, callable, case, false).as_str());
    push_str(&mut out, "\n  };\n}\n\n");
    push_str(&mut out, "module.exports = { create");
    push_str(&mut out, binding.ty.as_str());
    push_str(&mut out, " };\n");
    proof {
        assert(empty@ =~= Seq::<char>::empty());
    }
    out
}

proof fn lemma_forms_obj_sorted(forms: Seq<(Seq<char>, Seq<char>)>, c: Case)
    ensures
        keys_sorted(forms_obj(forms, c)),
    decreases forms.len(),
{
    if forms.len() > 0 {
        lemma_forms_obj_sorted(forms.drop_last(), c);
        lemma_fields_insert(forms_obj(forms.drop_last(), c), forms.last().0, JsonV::Str(recase_spec(forms.last().1, c)));
    }
}

/// Every plural form baked into the `DATA` table has its placeholders in the
/// output case, as a plain string does: with distinct category names, the
/// object of a plural holds, under each category, the re-cased text of its form.
pub proof fn law_plural_forms_baked_recased(forms: Seq<(Seq<char>, Seq<char>)>, c: Case, i: int)
    requires
        forall|a: int, b: int| 0 <= a < b < forms.len() ==> #[trigger] forms[a].0 != #[trigger] forms[b].0,
        0 <= i < forms.len(),
    ensures
        fields_get(forms_obj(forms, c), forms[i].0) == Some(JsonV::Str(recase_spec(forms[i].1, c))),
    decreases forms.len(),
{
    let prev = forms.drop_last();
    lemma_forms_obj_sorted(prev, c);
    lemma_fields_insert(forms_obj(prev, c), forms.last().0, JsonV::Str(recase_spec(forms.last().1, c)));
    if i < forms.len() - 1 {
        assert(prev[i] == forms[i]);
        assert(forms[i].0 != forms[forms.len() - 1].0);
        law_plural_forms_baked_recased(prev, c, i);
    }
}

/// A message's baked plural value is an object holding, under each category,
/// the re-cased text of its form, just as its baked plain value is its
/// re-cased string.
pub proof fn law_data_value_recases_forms(m: MsgV, loc: Seq<char>, c: Case, forms: Seq<(Seq<char>, Seq<char>)>, i: int)
    requires
        crate::json::fields_get(m.values, loc) == Some(ValV::Plural(forms)),
        forall|a: int, b: int| 0 <= a < b < forms.len() ==> #[trigger] forms[a].0 != #[trigger] forms[b].0,
        0 <= i < forms.len(),
    ensures
        data_value(m, loc, c) matches JsonV::Obj(o) && fields_get(o, forms[i].0) == Some(JsonV::Str(recase_spec(forms[i].1, c))),
{
    law_plural_forms_baked_recased(forms, c, i);
}

} // verus!
