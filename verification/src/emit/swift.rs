//! The Swift target: a `Locale` enum, nested accessor structs with labelled
//! arguments, and the baked string and plural tables.

use vstd::prelude::*;
use crate::emit::{
    apply_spec, build_tree_exec, build_tree, emittable, lemma_nodes_view, node_view,
    nodes_view, recase_placeholders, recase_spec, upper_camel, Binding, Case, Node, NodeV, Emitter, SegSeen,
    first_same, find_same, prefix_of, seen_view, pack_cats, packed_spec, table_for, table_of,
};
use crate::error::Error;
use crate::placeholder::{lemma_rewrite_single, word_char};
use crate::exchange::{flat, lemma_flat_push};
use crate::ir::{messages_view, Ir, Kind, Message, MessageValue, MsgV, ParamType, ValV, value_view};
use crate::json::{fields_get, lemma_fields_index};
use crate::text::{chars_of, copy_string, join, owned, push_char, push_str, seq_join, str_eq, string_of, views};

verus! {

pub struct SwiftEmitter {
    pub case: Case,
    pub binding: Binding,
}

pub open spec fn swift_type_spec(t: ParamType) -> Seq<char> {
    match t {
        ParamType::Number => "Int"@,
        ParamType::String => "String"@,
    }
}

pub fn swift_type(t: ParamType) -> (r: &'static str)
    ensures
        r@ == swift_type_spec(t),
{
    match t {
        ParamType::Number => "Int",
        ParamType::String => "String",
    }
}

pub open spec fn hex_digit(d: int) -> char {
    if d < 10 {
        (d + 48) as char
    } else {
        (d - 10 + 97) as char
    }
}

/// Lower-case hexadecimal digits of `n < 32`.
pub open spec fn hex_spec(n: int) -> Seq<char> {
    if n < 16 {
        seq![hex_digit(n)]
    } else {
        seq!['1', hex_digit(n - 16)]
    }
}

/// The Swift escape of one character in a string literal.
pub open spec fn swift_esc(c: char) -> Seq<char> {
    if c == '\\' {
        seq!['\\', '\\']
    } else if c == '"' {
        seq!['\\', '"']
    } else if c == '\n' {
        seq!['\\', 'n']
    } else if c == '\r' {
        seq!['\\', 'r']
    } else if c == '\t' {
        seq!['\\', 't']
    } else if c == '\0' {
        seq!['\\', '0']
    } else if (c as u32) < 32 {
        seq!['\\', 'u', '{'] + hex_spec((c as u32) as int) + seq!['}']
    } else {
        seq![c]
    }
}

/// A valid Swift string literal for `s`: Swift writes `\u{XX}` and has no
/// `\b` or `\f`, so control characters are escaped specially.
pub open spec fn swift_lit_spec(s: Seq<char>) -> Seq<char> {
    seq!['"'] + flat(s, |c: char| swift_esc(c)) + seq!['"']
}

fn hex_char(d: u32) -> (r: char)
    requires
        d < 16,
    ensures
        r == hex_digit(d as int),
{
    if d < 10 {
        ((d as u8) + 48) as char
    } else {
        ((d as u8) - 10 + 97) as char
    }
}

pub fn swift_lit(s: &str) -> (r: String)
    ensures
        r@ == swift_lit_spec(s@),
{
    let v = chars_of(s);
    let ghost f = |c: char| swift_esc(c);
    let mut out = String::new();
    push_char(&mut out, '"');
    let ghost head = out@;
    let mut i: usize = 0;
    proof {
        assert(s@.take(0) =~= Seq::<char>::empty());
        assert(out@ =~= head + flat(s@.take(0), f));
    }
    while i < v.len()
        invariant
            i <= v@.len(),
            v@ == s@,
            head == seq!['"'],
            f == (|c: char| swift_esc(c)),
            out@ == head + flat(s@.take(i as int), f),
        decreases v@.len() - i,
    {
        let c = v[i];
        let ghost before = out@;
        proof {
            assert(s@.take(i + 1) =~= s@.take(i as int).push(c));
            lemma_flat_push(s@.take(i as int), c, f);
        }
        if c == '\\' {
            push_char(&mut out, '\\');
            push_char(&mut out, '\\');
        } else if c == '"' {
            push_char(&mut out, '\\');
            push_char(&mut out, '"');
        } else if c == '\n' {
            push_char(&mut out, '\\');
            push_char(&mut out, 'n');
        } else if c == '\r' {
            push_char(&mut out, '\\');
            push_char(&mut out, 'r');
        } else if c == '\t' {
            push_char(&mut out, '\\');
            push_char(&mut out, 't');
        } else if c == '\0' {
            push_char(&mut out, '\\');
            push_char(&mut out, '0');
        } else if (c as u32) < 0x20 {
            let n = c as u32;
            push_char(&mut out, '\\');
            push_char(&mut out, 'u');
            push_char(&mut out, '{');
            if n < 16 {
                push_char(&mut out, hex_char(n));
            } else {
                push_char(&mut out, '1');
                push_char(&mut out, hex_char(n - 16));
            }
            push_char(&mut out, '}');
        } else {
            push_char(&mut out, c);
        }
        proof {
            assert(out@ =~= before + swift_esc(c));
        }
        i = i + 1;
    }
    push_char(&mut out, '"');
    proof {
        assert(s@.take(v@.len() as int) =~= s@);
    }
    out
}

/// Swift keywords, which an identifier must avoid or backtick-escape.
pub open spec fn swift_keywords() -> Seq<Seq<char>> {
    seq![
        "associatedtype"@, "class"@, "deinit"@, "enum"@, "extension"@, "fileprivate"@, "func"@, "import"@,
        "init"@, "inout"@, "internal"@, "let"@, "open"@, "operator"@, "private"@, "precedencegroup"@,
        "protocol"@, "public"@, "rethrows"@, "static"@, "struct"@, "subscript"@, "typealias"@, "var"@,
        "break"@, "case"@, "continue"@, "default"@, "defer"@, "do"@, "else"@, "fallthrough"@, "for"@,
        "guard"@, "if"@, "in"@, "repeat"@, "return"@, "switch"@, "where"@, "while"@, "as"@, "catch"@,
        "false"@, "is"@, "nil"@, "super"@, "self"@, "Self"@, "throw"@, "throws"@, "true"@, "try"@, "_"@,
        "actor"@, "async"@, "await"@, "some"@, "any"@,
    ]
}

fn is_keyword(name: &str) -> (r: bool)
    ensures
        r == swift_keywords().contains(name@),
{
    let keys: [&str; 59] = [
        "associatedtype", "class", "deinit", "enum", "extension", "fileprivate", "func", "import",
        "init", "inout", "internal", "let", "open", "operator", "private", "precedencegroup",
        "protocol", "public", "rethrows", "static", "struct", "subscript", "typealias", "var",
        "break", "case", "continue", "default", "defer", "do", "else", "fallthrough", "for",
        "guard", "if", "in", "repeat", "return", "switch", "where", "while", "as", "catch",
        "false", "is", "nil", "super", "self", "Self", "throw", "throws", "true", "try", "_",
        "actor", "async", "await", "some", "any",
    ];
    proof {
        assert(keys@.map_values(|k: &str| k@) =~= swift_keywords());
    }
    let mut i: usize = 0;
    while i < 59
        invariant
            i <= 59,
            keys@.map_values(|k: &str| k@) == swift_keywords(),
            forall|j: int| 0 <= j < i ==> swift_keywords()[j] != name@,
        decreases 59 - i,
    {
        if str_eq(keys[i], name) {
            proof {
                assert(swift_keywords()[i as int] == name@);
            }
            return true;
        }
        i = i + 1;
    }
    false
}

/// `name`, backtick-escaped when it is a Swift keyword.
pub open spec fn swift_ident_spec(name: Seq<char>) -> Seq<char> {
    if swift_keywords().contains(name) {
        seq!['`'] + name + seq!['`']
    } else {
        name
    }
}

pub fn swift_ident(name: &str) -> (r: String)
    ensures
        r@ == swift_ident_spec(name@),
{
    if is_keyword(name) {
        let mut s = String::new();
        push_char(&mut s, '`');
        push_str(&mut s, name);
        push_char(&mut s, '`');
        s
    } else {
        owned(name)
    }
}

pub open spec fn tag_char(c: char) -> char {
    if crate::emit::ascii_alnum(c) || c == '_' {
        c
    } else {
        '_'
    }
}

/// A locale tag as a Swift enum case name (`pt-BR` becomes `pt_BR`): every
/// other character than an ASCII letter, digit or `_` becomes `_`, a leading
/// digit gets a `_` before it, and a keyword is backtick-escaped.
pub open spec fn locale_case_spec(tag: Seq<char>) -> Seq<char> {
    let s = tag.map_values(|c: char| tag_char(c));
    let s2 = if s.len() > 0 && '0' <= s[0] && s[0] <= '9' { seq!['_'] + s } else { s };
    let s3 = if s2.len() == 0 { seq!['_'] } else { s2 };
    swift_ident_spec(s3)
}

pub fn locale_case(tag: &str) -> (r: String)
    ensures
        r@ == locale_case_spec(tag@),
{
    let v = chars_of(tag);
    let mut out: Vec<char> = Vec::new();
    let mut i: usize = 0;
    while i < v.len()
        invariant
            i <= v@.len(),
            v@ == tag@,
            out@ == tag@.take(i as int).map_values(|c: char| tag_char(c)),
        decreases v@.len() - i,
    {
        let c = v[i];
        let ok = (c >= 'a' && c <= 'z') || (c >= 'A' && c <= 'Z') || (c >= '0' && c <= '9') || c == '_';
        out.push(if ok { c } else { '_' });
        proof {
            assert(tag@.take(i + 1).map_values(|c: char| tag_char(c)) =~= tag@.take(i as int).map_values(
                |c: char| tag_char(c),
            ).push(tag_char(c)));
        }
        i = i + 1;
    }
    proof {
        assert(tag@.take(v@.len() as int) =~= tag@);
    }
    let ghost s = out@;
    if out.len() > 0 && out[0] >= '0' && out[0] <= '9' {
        out.insert(0, '_');
        proof {
            assert(out@ =~= seq!['_'] + s);
        }
    }
    if out.len() == 0 {
        out.push('_');
        proof {
            assert(out@ =~= seq!['_']);
        }
    }
    let name = string_of(&out);
    swift_ident(name.as_str())
}

pub open spec fn param_decl(c: Case, p: (Seq<char>, ParamType)) -> Seq<char> {
    swift_ident_spec(apply_spec(c, p.0)) + ": "@ + swift_type_spec(p.1)
}

/// The labelled parameter list of a message's accessor.
pub open spec fn sig_spec(m: MsgV, c: Case) -> Seq<char> {
    seq_join(m.params.map_values(|p: (Seq<char>, ParamType)| param_decl(c, p)), ", "@)
}

pub fn sig(m: &Message, case: Case) -> (r: String)
    ensures
        r@ == sig_spec(m@, case),
{
    let ghost pv = m@.params;
    let ghost f = |p: (Seq<char>, ParamType)| param_decl(case, p);
    let mut parts: Vec<String> = Vec::new();
    let mut i: usize = 0;
    while i < m.params.len()
        invariant
            i <= m.params@.len(),
            pv == m@.params,
            pv.len() == m.params@.len(),
            f == (|p: (Seq<char>, ParamType)| param_decl(case, p)),
            views(parts@) == pv.take(i as int).map_values(f),
        decreases m.params@.len() - i,
    {
        let p = &m.params[i];
        let name = case.apply(p.name.as_str());
        let mut s = swift_ident(name.as_str());
        push_str(&mut s, ": ");
        push_str(&mut s, swift_type(p.ty));
        let ghost before = parts@;
        parts.push(s);
        proof {
            assert(pv[i as int] == (p.name@, p.ty));
            assert(views(parts@) =~= views(before).push(s@));
            assert(pv.take(i + 1).map_values(f) =~= pv.take(i as int).map_values(f).push(f(pv[i as int])));
        }
        i = i + 1;
    }
    proof {
        assert(pv.take(m.params@.len() as int) =~= pv);
    }
    join(&parts, ", ")
}

pub open spec fn arg_entry(c: Case, p: (Seq<char>, ParamType)) -> Seq<char> {
    let name = apply_spec(c, p.0);
    let ident = swift_ident_spec(name);
    let val = match p.1 {
        ParamType::Number => "String("@ + ident + ")"@,
        ParamType::String => ident,
    };
    swift_lit_spec(name) + ": "@ + val
}

/// The `[String: String]` argument dictionary passed to `interp` / `plural`:
/// keys match the re-cased placeholders; `Int` parameters are stringified.
pub open spec fn arg_dict_spec(m: MsgV, c: Case) -> Seq<char> {
    if m.params.len() == 0 {
        "[:]"@
    } else {
        "["@ + seq_join(m.params.map_values(|p: (Seq<char>, ParamType)| arg_entry(c, p)), ", "@) + "]"@
    }
}

pub fn arg_dict(m: &Message, case: Case) -> (r: String)
    ensures
        r@ == arg_dict_spec(m@, case),
{
    if m.params.len() == 0 {
        return owned("[:]");
    }
    let ghost pv = m@.params;
    let ghost f = |p: (Seq<char>, ParamType)| arg_entry(case, p);
    let mut parts: Vec<String> = Vec::new();
    let mut i: usize = 0;
    while i < m.params.len()
        invariant
            i <= m.params@.len(),
            pv == m@.params,
            pv.len() == m.params@.len(),
            f == (|p: (Seq<char>, ParamType)| arg_entry(case, p)),
            views(parts@) == pv.take(i as int).map_values(f),
        decreases m.params@.len() - i,
    {
        let p = &m.params[i];
        let name = case.apply(p.name.as_str());
        let ident = swift_ident(name.as_str());
        let val = match p.ty {
            ParamType::Number => {
                let mut v = owned("String(");
                push_str(&mut v, ident.as_str());
                push_str(&mut v, ")");
                v
            },
            ParamType::String => ident,
        };
        let mut s = swift_lit(name.as_str());
        push_str(&mut s, ": ");
        push_str(&mut s, val.as_str());
        let ghost before = parts@;
        parts.push(s);
        proof {
            assert(pv[i as int] == (p.name@, p.ty));
            assert(views(parts@) =~= views(before).push(s@));
            assert(pv.take(i + 1).map_values(f) =~= pv.take(i as int).map_values(f).push(f(pv[i as int])));
        }
        i = i + 1;
    }
    proof {
        assert(pv.take(m.params@.len() as int) =~= pv);
    }
    let inner = join(&parts, ", ");
    let mut r = owned("[");
    push_str(&mut r, inner.as_str());
    push_str(&mut r, "]");
    r
}

/// The pieces of `s` between `\n`s (`str::split('\n')`).
pub open spec fn split_nl(s: Seq<char>) -> Seq<Seq<char>>
    decreases s.len(),
{
    if s.len() == 0 {
        seq![Seq::empty()]
    } else {
        let prev = split_nl(s.drop_last());
        if s.last() == '\n' {
            prev.push(Seq::empty())
        } else {
            prev.update(prev.len() - 1, prev.last().push(s.last()))
        }
    }
}

pub open spec fn strip_cr(l: Seq<char>) -> Seq<char> {
    if l.len() > 0 && l.last() == '\r' {
        l.drop_last()
    } else {
        l
    }
}

/// The lines of `s` (`str::lines`): split at `\n`, a `\r` before it dropped,
/// and no empty line after a final `\n`.
pub open spec fn lines_spec(s: Seq<char>) -> Seq<Seq<char>> {
    let parts = split_nl(s);
    let ps = if parts.last().len() == 0 { parts.drop_last() } else { parts };
    ps.map_values(|l: Seq<char>| strip_cr(l))
}

pub open spec fn pad_line(l: Seq<char>, n: nat) -> Seq<char> {
    if l.len() == 0 {
        Seq::empty()
    } else {
        Seq::new(n, |i: int| ' ') + l
    }
}

/// Every non-empty line of `s` indented by `n` spaces.
pub open spec fn indent_spec(s: Seq<char>, n: nat) -> Seq<char> {
    seq_join(lines_spec(s).map_values(|l: Seq<char>| pad_line(l, n)), seq!['\n'])
}

proof fn lemma_split_nl_len(s: Seq<char>)
    ensures
        split_nl(s).len() >= 1,
    decreases s.len(),
{
    if s.len() > 0 {
        lemma_split_nl_len(s.drop_last());
    }
}

/// The pieces of `v` between `\n`s.
fn split_lines(v: &Vec<char>) -> (r: Vec<Vec<char>>)
    ensures
        r@.map_values(|x: Vec<char>| x@) == split_nl(v@),
{
    let mut parts: Vec<Vec<char>> = Vec::new();
    parts.push(Vec::new());
    let mut i: usize = 0;
    proof {
        assert(v@.take(0) =~= Seq::<char>::empty());
        assert(parts@.map_values(|x: Vec<char>| x@) =~= split_nl(v@.take(0)));
    }
    while i < v.len()
        invariant
            i <= v@.len(),
            parts@.len() >= 1,
            parts@.map_values(|x: Vec<char>| x@) == split_nl(v@.take(i as int)),
        decreases v@.len() - i,
    {
        let c = v[i];
        let ghost before = parts@.map_values(|x: Vec<char>| x@);
        proof {
            assert(v@.take(i + 1).drop_last() =~= v@.take(i as int));
            assert(v@.take(i + 1).last() == c);
            lemma_split_nl_len(v@.take(i as int));
        }
        if c == '\n' {
            parts.push(Vec::new());
            proof {
                assert(parts@.map_values(|x: Vec<char>| x@) =~= before.push(Seq::empty()));
            }
        } else {
            let last = parts.len() - 1;
            let mut cur = parts.remove(last);
            cur.push(c);
            parts.push(cur);
            proof {
                assert(parts@.map_values(|x: Vec<char>| x@) =~= before.update(before.len() - 1, before.last().push(c)));
            }
        }
        i = i + 1;
    }
    proof {
        assert(v@.take(v@.len() as int) =~= v@);
    }
    parts
}

/// Every non-empty line of `s` indented by `n` spaces (see `indent_spec`).
pub fn indent(s: &str, n: usize) -> (r: String)
    ensures
        r@ == indent_spec(s@, n as nat),
{
    let v = chars_of(s);
    let parts = split_lines(&v);
    let ghost pv = parts@.map_values(|x: Vec<char>| x@);
    proof {
        lemma_split_nl_len(s@);
    }
    let count = if parts[parts.len() - 1].len() == 0 {
        parts.len() - 1
    } else {
        parts.len()
    };
    let ghost ps = if pv.last().len() == 0 { pv.drop_last() } else { pv };
    proof {
        assert(ps.len() == count);
        assert(forall|j: int| 0 <= j < count ==> ps[j] == pv[j]);
    }
    let ghost f = |l: Seq<char>| pad_line(strip_cr(l), n as nat);
    let mut lines: Vec<String> = Vec::new();
    let mut i: usize = 0;
    while i < count
        invariant
            i <= count,
            count <= parts@.len(),
            pv == parts@.map_values(|x: Vec<char>| x@),
            ps.len() == count,
            forall|j: int| 0 <= j < count ==> ps[j] == pv[j],
            f == (|l: Seq<char>| pad_line(strip_cr(l), n as nat)),
            views(lines@) == ps.take(i as int).map_values(f),
        decreases count - i,
    {
        let p = &parts[i];
        let mut end = p.len();
        if end > 0 && p[end - 1] == '\r' {
            end = end - 1;
        }
        let body = crate::text::subchars(p, 0, end);
        let mut line = String::new();
        if body.len() > 0 {
            let mut k: usize = 0;
            while k < n
                invariant
                    k <= n,
                    line@ == Seq::new(k as nat, |j: int| ' '),
                decreases n - k,
            {
                push_char(&mut line, ' ');
                proof {
                    assert(line@ =~= Seq::new((k + 1) as nat, |j: int| ' '));
                }
                k = k + 1;
            }
            crate::text::push_chars(&mut line, &body);
        }
        proof {
            assert(pv[i as int] == p@);
            assert(body@ =~= strip_cr(p@));
            assert(line@ =~= pad_line(strip_cr(p@), n as nat));
        }
        let ghost before = lines@;
        lines.push(line);
        proof {
            assert(views(lines@) =~= views(before).push(line@));
            assert(ps.take(i + 1).map_values(f) =~= ps.take(i as int).map_values(f).push(f(ps[i as int])));
        }
        i = i + 1;
    }
    proof {
        assert(ps.take(count as int) =~= ps);
        assert(ps.map_values(f) =~= lines_spec(s@).map_values(|l: Seq<char>| pad_line(l, n as nat)));
    }
    let r = join(&lines, "\n");
    proof {
        reveal_strlit("\n");
        assert("\n"@ =~= seq!['\n']);
    }
    r
}

/// Every leaf of a tree is one of the first `cnt` messages.
pub open spec fn node_ok(n: NodeV, cnt: int) -> bool
    decreases n, 1int,
{
    match n {
        NodeV::Leaf(i) => 0 <= i < cnt,
        NodeV::Branch(c) => branch_rec_ok(c, cnt),
    }
}

pub open spec fn branch_rec_ok(b: Seq<(Seq<char>, NodeV)>, cnt: int) -> bool
    decreases b, 0int,
{
    if b.len() == 0 {
        true
    } else {
        branch_rec_ok(b.subrange(0, b.len() - 1), cnt) && node_ok(b[b.len() - 1].1, cnt)
    }
}

pub open spec fn branch_ok(b: Seq<(Seq<char>, NodeV)>, cnt: int) -> bool {
    forall|j: int| 0 <= j < b.len() ==> node_ok(#[trigger] b[j].1, cnt)
}

proof fn lemma_branch_ok(b: Seq<(Seq<char>, NodeV)>, cnt: int)
    ensures
        branch_rec_ok(b, cnt) <==> branch_ok(b, cnt),
    decreases b.len(),
{
    if b.len() > 0 {
        let p = b.subrange(0, b.len() - 1);
        lemma_branch_ok(p, cnt);
        assert forall|j: int| 0 <= j < p.len() implies p[j] == b[j] by {}
        if branch_ok(b, cnt) {
            assert(node_ok(b[b.len() - 1].1, cnt));
            assert forall|j: int| 0 <= j < p.len() implies node_ok(#[trigger] p[j].1, cnt) by {
                assert(node_ok(b[j].1, cnt));
            }
        }
        if branch_rec_ok(b, cnt) {
            assert forall|j: int| 0 <= j < b.len() implies node_ok(#[trigger] b[j].1, cnt) by {
                if j < b.len() - 1 {
                    assert(node_ok(p[j].1, cnt));
                }
            }
        }
    }
}

pub proof fn lemma_node_ok_branch(c: Seq<(Seq<char>, NodeV)>, cnt: int)
    requires
        node_ok(NodeV::Branch(c), cnt),
    ensures
        branch_ok(c, cnt),
{
    lemma_branch_ok(c, cnt);
}

proof fn lemma_branch_node_ok(c: Seq<(Seq<char>, NodeV)>, cnt: int)
    requires
        branch_ok(c, cnt),
    ensures
        node_ok(NodeV::Branch(c), cnt),
{
    lemma_branch_ok(c, cnt);
}

proof fn lemma_branch_insert(b: Seq<(Seq<char>, NodeV)>, k: Seq<char>, v: NodeV, cnt: int)
    requires
        branch_ok(b, cnt),
        node_ok(v, cnt),
    ensures
        branch_ok(crate::json::fields_insert(b, k, v), cnt),
{
    lemma_fields_index(b, k);
    crate::json::lemma_insert_pos(b, k);
    let r = crate::json::fields_insert(b, k, v);
    assert forall|j: int| 0 <= j < r.len() implies node_ok(#[trigger] r[j].1, cnt) by {
        match crate::json::fields_index(b, k) {
            Some(i) => {
                if j != i {
                    assert(r[j] == b[j]);
                }
            },
            None => {
                let p = crate::json::insert_pos(b, k);
                if j < p {
                    assert(r[j] == b[j]);
                } else if j > p {
                    assert(r[j] == b[j - 1]);
                }
            },
        }
    }
}

proof fn lemma_tree_insert_ok(b: Seq<(Seq<char>, NodeV)>, path: Seq<Seq<char>>, m: int, cnt: int)
    requires
        branch_ok(b, cnt),
        0 <= m < cnt,
        path.len() > 0,
    ensures
        branch_ok(crate::emit::tree_insert(b, path, m), cnt),
    decreases path.len(),
{
    if path.len() <= 1 {
        lemma_branch_insert(b, path[0], NodeV::Leaf(m), cnt);
    } else {
        lemma_fields_index(b, path[0]);
        match fields_get(b, path[0]) {
            Some(NodeV::Branch(c)) => {
                let i = crate::json::fields_index(b, path[0]).unwrap();
                assert(node_ok(b[i].1, cnt));
                lemma_node_ok_branch(c, cnt);
                lemma_tree_insert_ok(c, path.drop_first(), m, cnt);
                lemma_branch_node_ok(crate::emit::tree_insert(c, path.drop_first(), m), cnt);
                lemma_branch_insert(b, path[0], NodeV::Branch(crate::emit::tree_insert(c, path.drop_first(), m)), cnt);
            },
            Some(NodeV::Leaf(_)) => {},
            None => {
                lemma_tree_insert_ok(Seq::empty(), path.drop_first(), m, cnt);
                lemma_branch_node_ok(crate::emit::tree_insert(Seq::empty(), path.drop_first(), m), cnt);
                lemma_branch_insert(b, path[0], NodeV::Branch(crate::emit::tree_insert(Seq::empty(), path.drop_first(), m)), cnt);
            },
        }
    }
}

/// The tree of the messages only has leaves among them.
pub proof fn lemma_build_tree_ok(msgs: Seq<MsgV>, n: int, cnt: int)
    requires
        0 <= n <= cnt,
        forall|i: int| 0 <= i < msgs.len() ==> #[trigger] msgs[i].path.len() > 0,
        n <= msgs.len(),
    ensures
        branch_ok(build_tree(msgs, n), cnt),
    decreases n,
{
    if n > 0 {
        lemma_build_tree_ok(msgs, n - 1, cnt);
        lemma_tree_insert_ok(build_tree(msgs, n - 1), msgs[n - 1].path, n - 1, cnt);
    }
}

/// A message's dotted key.
pub open spec fn dotted_of(m: MsgV) -> Seq<char> {
    seq_join(m.path, "."@)
}

/// The accessor of one message, named `k`: a computed property for a plain
/// string without parameters, else a function with labelled arguments.
pub open spec fn render_leaf_spec(k: Seq<char>, m: MsgV, c: Case) -> Seq<char> {
    let key = swift_lit_spec(dotted_of(m));
    match m.kind {
        Kind::Plain => if m.params.len() == 0 {
            "public var "@ + k + ": String { SteleData.s(locale, "@ + key + ") }"@
        } else {
            "public func "@ + k + "("@ + sig_spec(m, c) + ") -> String {\n    SteleData.interp(SteleData.s(locale, "@ + key
                + "), "@ + arg_dict_spec(m, c) + ")\n}"@
        },
        Kind::Plural => "public func "@ + k + "("@ + sig_spec(m, c) + ") -> String {\n    SteleData.plural(locale, "@ + key
            + ", "@ + swift_ident_spec(apply_spec(c, "count"@)) + ", "@ + arg_dict_spec(m, c) + ")\n}"@,
    }
}

pub fn render_leaf(k: &str, m: &Message, case: Case) -> (r: String)
    ensures
        r@ == render_leaf_spec(k@, m@, case),
{
    let d = m.dotted();
    let key = swift_lit(d.as_str());
    proof {
        assert(d@ == dotted_of(m@));
    }
    let mut s = String::new();
    match m.kind {
        Kind::Plain => {
            if m.params.len() == 0 {
                push_str(&mut s, "public var ");
                push_str(&mut s, k);
                push_str(&mut s, ": String { SteleData.s(locale, ");
                push_str(&mut s, key.as_str());
                push_str(&mut s, ") }");
                proof {
                    assert(m@.params.len() == 0);
                }
            } else {
                let sg = sig(m, case);
                let ad = arg_dict(m, case);
                push_str(&mut s, "public func ");
                push_str(&mut s, k);
                push_str(&mut s, "(");
                push_str(&mut s, sg.as_str());
                push_str(&mut s, ") -> String {\n    SteleData.interp(SteleData.s(locale, ");
                push_str(&mut s, key.as_str());
                push_str(&mut s, "), ");
                push_str(&mut s, ad.as_str());
                push_str(&mut s, ")\n}");
            }
        },
        Kind::Plural => {
            let sg = sig(m, case);
            let ad = arg_dict(m, case);
            let count = case.apply("count");
            let ci = swift_ident(count.as_str());
            push_str(&mut s, "public func ");
            push_str(&mut s, k);
            push_str(&mut s, "(");
            push_str(&mut s, sg.as_str());
            push_str(&mut s, ") -> String {\n    SteleData.plural(locale, ");
            push_str(&mut s, key.as_str());
            push_str(&mut s, ", ");
            push_str(&mut s, ci.as_str());
            push_str(&mut s, ", ");
            push_str(&mut s, ad.as_str());
            push_str(&mut s, ")\n}");
        },
    }
    proof {
        assert(s@ =~= render_leaf_spec(k@, m@, case));
    }
    s
}

/// The members one entry of a namespace contributes: a leaf's accessor, or a
/// namespace's property and nested struct (types stay PascalCase; `Self.`
/// qualifies the type so a same-named property cannot shadow it).
pub open spec fn entry_members(k: Seq<char>, node: NodeV, msgs: Seq<MsgV>, c: Case) -> Seq<Seq<char>>
    decreases node, 2int,
{
    match node {
        NodeV::Leaf(i) => seq![render_leaf_spec(swift_ident_spec(apply_spec(c, k)), msgs[i], c)],
        NodeV::Branch(b) => {
            let prop = swift_ident_spec(apply_spec(c, k));
            let ty = upper_camel(k);
            seq![
                "public var "@ + prop + ": Self."@ + ty + " { Self."@ + ty + "(locale) }"@,
                struct_spec(ty, b, msgs, c),
            ]
        },
    }
}

/// The members of a namespace, in key order.
pub open spec fn members_spec(b: Seq<(Seq<char>, NodeV)>, msgs: Seq<MsgV>, c: Case) -> Seq<Seq<char>>
    decreases b, 0int,
{
    if b.len() == 0 {
        Seq::empty()
    } else {
        members_spec(b.subrange(0, b.len() - 1), msgs, c) + entry_members(b[b.len() - 1].0, b[b.len() - 1].1, msgs, c)
    }
}

/// The struct `name` for a namespace.
pub open spec fn struct_spec(name: Seq<char>, b: Seq<(Seq<char>, NodeV)>, msgs: Seq<MsgV>, c: Case) -> Seq<char>
    decreases b, 1int,
{
    "public struct "@ + name + " {\n    let locale: Locale\n    public init(_ locale: Locale) { self.locale = locale }\n"@
        + indent_spec(seq_join(members_spec(b, msgs, c), "\n"@), 4) + "\n}"@
}

/// The struct `name` for the namespace `b` (see `struct_spec`).
pub fn render_struct(name: &str, b: &Vec<(String, Node)>, ir: &Ir, case: Case) -> (r: String)
    requires
        branch_ok(nodes_view(b@), ir.messages@.len() as int),
    ensures
        r@ == struct_spec(name@, nodes_view(b@), messages_view(ir.messages@), case),
    decreases b@,
{
    let ghost bv = nodes_view(b@);
    let ghost mv = messages_view(ir.messages@);
    proof {
        lemma_nodes_view(b@);
        assert(bv.subrange(0, 0) =~= Seq::<(Seq<char>, NodeV)>::empty());
    }
    let mut members: Vec<String> = Vec::new();
    let mut i: usize = 0;
    while i < b.len()
        invariant
            i <= b@.len(),
            bv == nodes_view(b@),
            bv.len() == b@.len(),
            mv == messages_view(ir.messages@),
            branch_ok(bv, ir.messages@.len() as int),
            forall|j: int| 0 <= j < b@.len() ==> #[trigger] bv[j] == (b@[j].0@, node_view(b@[j].1)),
            views(members@) == members_spec(bv.subrange(0, i as int), mv, case),
        decreases b@.len() - i,
    {
        let ghost before = views(members@);
        proof {
            assert(bv.subrange(0, i + 1).subrange(0, i as int) =~= bv.subrange(0, i as int));
            assert(bv.subrange(0, i + 1)[i as int] == bv[i as int]);
            assert(node_ok(bv[i as int].1, ir.messages@.len() as int));
        }
        let k = &b[i].0;
        match &b[i].1 {
            Node::Leaf(mi) => {
                let cased = case.apply(k.as_str());
                let id = swift_ident(cased.as_str());
                let leaf = render_leaf(id.as_str(), &ir.messages[*mi], case);
                proof {
                    assert(mv[*mi as int] == ir.messages@[*mi as int]@);
                }
                members.push(leaf);
                proof {
                    assert(bv[i as int] == (k@, NodeV::Leaf(*mi as int)));
                    assert(entry_members(bv[i as int].0, bv[i as int].1, mv, case) == seq![leaf@]);
                    assert(views(members@) =~= before + seq![leaf@]);
                }
            },
            Node::Branch(c) => {
                proof {
                    assert(decreases_to!(b@ => b@[i as int]));
                    assert(decreases_to!(b@[i as int] => b@[i as int].1));
                    assert(decreases_to!(b@[i as int].1 => c));
                    assert(node_view(b@[i as int].1) == NodeV::Branch(nodes_view(c@)));
                    let cv = nodes_view(c@);
                    let cnt = ir.messages@.len() as int;
                    assert(node_ok(NodeV::Branch(cv), cnt));
                    lemma_node_ok_branch(cv, cnt);
                }
                let cased = case.apply(k.as_str());
                let prop = swift_ident(cased.as_str());
                let ty = Case::Pascal.apply(k.as_str());
                let mut line = owned("public var ");
                push_str(&mut line, prop.as_str());
                push_str(&mut line, ": Self.");
                push_str(&mut line, ty.as_str());
                push_str(&mut line, " { Self.");
                push_str(&mut line, ty.as_str());
                push_str(&mut line, "(locale) }");
                let inner = render_struct(ty.as_str(), c, ir, case);
                members.push(line);
                members.push(inner);
                proof {
                    assert(bv[i as int] == (k@, NodeV::Branch(nodes_view(c@))));
                    assert(entry_members(bv[i as int].0, bv[i as int].1, mv, case) == seq![line@, inner@]);
                    assert(views(members@) =~= before + seq![line@, inner@]);
                }
            },
        }
        i = i + 1;
    }
    proof {
        assert(bv.subrange(0, b@.len() as int) =~= bv);
    }
    let body_src = join(&members, "\n");
    let body = indent(body_src.as_str(), 4);
    let mut s = owned("public struct ");
    push_str(&mut s, name);
    push_str(&mut s, " {\n    let locale: Locale\n    public init(_ locale: Locale) { self.locale = locale }\n");
    push_str(&mut s, body.as_str());
    push_str(&mut s, "\n}");
    s
}

/// The baked entry of one message for one locale, when its value has the
/// wanted shape (a plain string, or plural forms).
pub open spec fn dict_entry(m: MsgV, loc: Seq<char>, plural: bool, c: Case) -> Option<Seq<char>> {
    let key = swift_lit_spec(dotted_of(m));
    match fields_get(m.values, loc) {
        Some(ValV::Plain(v)) => if !plural {
            Some("            "@ + key + ": "@ + swift_lit_spec(recase_spec(v, c)) + ","@)
        } else {
            None
        },
        Some(ValV::Plural(forms)) => if plural {
            Some("            "@ + key + ": ["@ + seq_join(
                forms.map_values(|f: (Seq<char>, Seq<char>)| swift_lit_spec(f.0) + ": "@ + swift_lit_spec(recase_spec(f.1, c))),
                ", "@,
            ) + "],"@)
        } else {
            None
        },
        None => None,
    }
}

/// The entries of the first `n` messages for one locale.
pub open spec fn dict_entries(msgs: Seq<MsgV>, n: int, loc: Seq<char>, plural: bool, c: Case) -> Seq<Seq<char>>
    decreases n,
{
    if n <= 0 {
        Seq::empty()
    } else {
        dict_entries(msgs, n - 1, loc, plural, c) + match dict_entry(msgs[n - 1], loc, plural, c) {
            Some(e) => seq![e],
            None => Seq::empty(),
        }
    }
}

pub open spec fn dict_locale(msgs: Seq<MsgV>, loc: Seq<char>, plural: bool, c: Case) -> Seq<char> {
    let es = dict_entries(msgs, msgs.len() as int, loc, plural, c);
    if es.len() == 0 {
        "        "@ + swift_lit_spec(loc) + ": [:],"@
    } else {
        "        "@ + swift_lit_spec(loc) + ": [\n"@ + seq_join(es, "\n"@) + "\n        ],"@
    }
}

/// The baked dictionary `label` of every locale's plain strings (or plural forms).
pub open spec fn dict_block_spec(label: Seq<char>, locales: Seq<Seq<char>>, msgs: Seq<MsgV>, plural: bool, c: Case) -> Seq<char> {
    "    static let "@ + label + " = [\n"@ + seq_join(locales.map_values(|l: Seq<char>| dict_locale(msgs, l, plural, c)), "\n"@)
        + "\n    ]"@
}

/// The value of a message for a locale, by position.
pub(crate) fn value_for<'a>(m: &'a Message, loc: &str) -> (r: Option<&'a MessageValue>)
    ensures
        match fields_get(m@.values, loc@) {
            Some(v) => r matches Some(x) && value_view(*x) == v,
            None => r is None,
        },
{
    let ghost vv = m@.values;
    let mut i: usize = 0;
    proof {
        lemma_fields_index(vv, loc@);
    }
    while i < m.values.len()
        invariant
            i <= m.values@.len(),
            vv == m@.values,
            vv.len() == m.values@.len(),
            forall|j: int| 0 <= j < i ==> vv[j].0 != loc@,
        decreases m.values@.len() - i,
    {
        proof {
            assert(vv[i as int] == (m.values@[i as int].0@, value_view(m.values@[i as int].1)));
        }
        if str_eq(m.values[i].0.as_str(), loc) {
            proof {
                lemma_first_key(vv, i as int, loc@);
            }
            return Some(&m.values[i].1);
        }
        i = i + 1;
    }
    proof {
        lemma_no_key(vv, loc@);
    }
    None
}

proof fn lemma_first_key<V>(s: Seq<(Seq<char>, V)>, i: int, k: Seq<char>)
    requires
        0 <= i < s.len(),
        s[i].0 == k,
        forall|j: int| 0 <= j < i ==> s[j].0 != k,
    ensures
        fields_get(s, k) == Some(s[i].1),
{
    lemma_fields_index(s, k);
    match crate::json::fields_index(s, k) {
        Some(x) => {
            if x > i {
            }
        },
        None => {},
    }
}

proof fn lemma_no_key<V>(s: Seq<(Seq<char>, V)>, k: Seq<char>)
    requires
        forall|j: int| 0 <= j < s.len() ==> s[j].0 != k,
    ensures
        fields_get(s, k) is None,
{
    lemma_fields_index(s, k);
    match crate::json::fields_index(s, k) {
        Some(x) => {
            assert(s[x].0 == k);
        },
        None => {},
    }
}

fn dict_entry_exec(m: &Message, loc: &str, plural: bool, case: Case) -> (r: Option<String>)
    ensures
        match dict_entry(m@, loc@, plural, case) {
            Some(e) => r matches Some(x) && x@ == e,
            None => r is None,
        },
{
    let d = m.dotted();
    let key = swift_lit(d.as_str());
    match value_for(m, loc) {
        Some(MessageValue::Plain(v)) => {
            if !plural {
                let t = swift_lit(recase_placeholders(v.as_str(), case).as_str());
                let mut s = owned("            ");
                push_str(&mut s, key.as_str());
                push_str(&mut s, ": ");
                push_str(&mut s, t.as_str());
                push_str(&mut s, ",");
                Some(s)
            } else {
                None
            }
        },
        Some(MessageValue::Plural(forms)) => {
            if plural {
                let ghost fv = forms@.map_values(|p: (String, String)| (p.0@, p.1@));
                let ghost f = |f: (Seq<char>, Seq<char>)| swift_lit_spec(f.0) + ": "@ + swift_lit_spec(recase_spec(f.1, case));
                let mut parts: Vec<String> = Vec::new();
                let mut i: usize = 0;
                while i < forms.len()
                    invariant
                        i <= forms@.len(),
                        fv == forms@.map_values(|p: (String, String)| (p.0@, p.1@)),
                        f == (|f: (Seq<char>, Seq<char>)| swift_lit_spec(f.0) + ": "@ + swift_lit_spec(recase_spec(f.1, case))),
                        views(parts@) == fv.take(i as int).map_values(f),
                    decreases forms@.len() - i,
                {
                    let mut e = swift_lit(forms[i].0.as_str());
                    push_str(&mut e, ": ");
                    let t = swift_lit(recase_placeholders(forms[i].1.as_str(), case).as_str());
                    push_str(&mut e, t.as_str());
                    let ghost before = parts@;
                    parts.push(e);
                    proof {
                        assert(views(parts@) =~= views(before).push(e@));
                        assert(fv.take(i + 1).map_values(f) =~= fv.take(i as int).map_values(f).push(f(fv[i as int])));
                    }
                    i = i + 1;
                }
                proof {
                    assert(fv.take(forms@.len() as int) =~= fv);
                }
                let inner = join(&parts, ", ");
                let mut s = owned("            ");
                push_str(&mut s, key.as_str());
                push_str(&mut s, ": [");
                push_str(&mut s, inner.as_str());
                push_str(&mut s, "],");
                Some(s)
            } else {
                None
            }
        },
        None => None,
    }
}

/// The baked dictionary `label` (see `dict_block_spec`).
pub fn dict_block(label: &str, ir: &Ir, plural: bool, case: Case) -> (r: String)
    ensures
        r@ == dict_block_spec(label@, views(ir.locales@), messages_view(ir.messages@), plural, case),
{
    let ghost mv = messages_view(ir.messages@);
    let ghost lv = views(ir.locales@);
    let ghost fl = |l: Seq<char>| dict_locale(mv, l, plural, case);
    let mut blocks: Vec<String> = Vec::new();
    let mut li: usize = 0;
    while li < ir.locales.len()
        invariant
            li <= ir.locales@.len(),
            mv == messages_view(ir.messages@),
            lv == views(ir.locales@),
            fl == (|l: Seq<char>| dict_locale(mv, l, plural, case)),
            views(blocks@) == lv.take(li as int).map_values(fl),
        decreases ir.locales@.len() - li,
    {
        let loc = &ir.locales[li];
        let mut entries: Vec<String> = Vec::new();
        let mut k: usize = 0;
        while k < ir.messages.len()
            invariant
                k <= ir.messages@.len(),
                mv == messages_view(ir.messages@),
                views(entries@) == dict_entries(mv, k as int, loc@, plural, case),
            decreases ir.messages@.len() - k,
        {
            proof {
                assert(mv[k as int] == ir.messages@[k as int]@);
            }
            let ghost before = views(entries@);
            match dict_entry_exec(&ir.messages[k], loc.as_str(), plural, case) {
                Some(e) => {
                    entries.push(e);
                    proof {
                        assert(views(entries@) =~= before + seq![e@]);
                    }
                },
                None => {
                    proof {
                        assert(before + Seq::<Seq<char>>::empty() =~= before);
                    }
                },
            }
            k = k + 1;
        }
        let lit = swift_lit(loc.as_str());
        let mut blk = owned("        ");
        push_str(&mut blk, lit.as_str());
        if entries.len() == 0 {
            push_str(&mut blk, ": [:],");
        } else {
            let j = join(&entries, "\n");
            push_str(&mut blk, ": [\n");
            push_str(&mut blk, j.as_str());
            push_str(&mut blk, "\n        ],");
        }
        proof {
            assert(blk@ == fl(lv[li as int]));
        }
        let ghost before = blocks@;
        blocks.push(blk);
        proof {
            assert(views(blocks@) =~= views(before).push(blk@));
            assert(lv.take(li + 1).map_values(fl) =~= lv.take(li as int).map_values(fl).push(fl(lv[li as int])));
        }
        li = li + 1;
    }
    proof {
        assert(lv.take(ir.locales@.len() as int) =~= lv);
    }
    let all = join(&blocks, "\n");
    let mut s = owned("    static let ");
    push_str(&mut s, label);
    push_str(&mut s, " = [\n");
    push_str(&mut s, all.as_str());
    push_str(&mut s, "\n    ]");
    s
}

pub open spec fn pcat_entry(loc: Seq<char>, t: crate::ir::PluralTable, modulo: bool) -> Seq<char> {
    "        "@ + swift_lit_spec(loc) + ": "@ + swift_lit_spec(packed_spec(if modulo { t.modulo@ } else { t.small@ })) + ","@
}

/// The packed per-locale plural-category tables, baked from CLDR via ICU4X.
pub open spec fn pcat_block_spec(label: Seq<char>, ir: &Ir, modulo: bool) -> Seq<char> {
    "    static let "@ + label + ": [String: String] = [\n"@ + seq_join(
        views(ir.locales@).map_values(|l: Seq<char>| pcat_entry(l, table_for(ir, l), modulo)),
        "\n"@,
    ) + "\n    ]"@
}

pub fn pcat_block(label: &str, ir: &Ir, modulo: bool) -> (r: String)
    requires
        emittable(ir),
    ensures
        r@ == pcat_block_spec(label@, ir, modulo),
{
    let ghost lv = views(ir.locales@);
    let ghost f = |l: Seq<char>| pcat_entry(l, table_for(ir, l), modulo);
    let mut parts: Vec<String> = Vec::new();
    let mut i: usize = 0;
    while i < ir.locales.len()
        invariant
            i <= ir.locales@.len(),
            emittable(ir),
            lv == views(ir.locales@),
            f == (|l: Seq<char>| pcat_entry(l, table_for(ir, l), modulo)),
            views(parts@) == lv.take(i as int).map_values(f),
        decreases ir.locales@.len() - i,
    {
        let t = table_of(ir, i);
        let packed = if modulo { pack_cats(&t.modulo) } else { pack_cats(&t.small) };
        let mut e = owned("        ");
        push_str(&mut e, swift_lit(ir.locales[i].as_str()).as_str());
        push_str(&mut e, ": ");
        push_str(&mut e, swift_lit(packed.as_str()).as_str());
        push_str(&mut e, ",");
        let ghost before = parts@;
        parts.push(e);
        proof {
            assert(lv[i as int] == ir.locales@[i as int]@);
            assert(e@ == f(lv[i as int]));
            assert(views(parts@) =~= views(before).push(e@));
            assert(lv.take(i + 1).map_values(f) =~= lv.take(i as int).map_values(f).push(f(lv[i as int])));
        }
        i = i + 1;
    }
    proof {
        assert(lv.take(ir.locales@.len() as int) =~= lv);
    }
    let all = join(&parts, "\n");
    let mut s = owned("    static let ");
    push_str(&mut s, label);
    push_str(&mut s, ": [String: String] = [\n");
    push_str(&mut s, all.as_str());
    push_str(&mut s, "\n    ]");
    s
}

/// The runtime helpers of the generated `SteleData` enum.
pub const SWIFT_HELPERS: &'static str = "
    static func pcode(_ c: Character) -> String {
        switch c {
        case \"z\": return \"zero\"
        case \"1\": return \"one\"
        case \"2\": return \"two\"
        case \"f\": return \"few\"
        case \"m\": return \"many\"
        default: return \"other\"
        }
    }
    static func pluralCategory(_ l: Locale, _ n: Int) -> String {
        let i = n.magnitude // UInt: no abs() overflow on Int.min
        let table = i < 100 ? (PCAT_SMALL[l.rawValue] ?? \"\") : (PCAT_MOD[l.rawValue] ?? \"\")
        let chars = Array(table)
        let idx = Int(i < 100 ? i : i % 100)
        return idx < chars.count ? pcode(chars[idx]) : \"other\"
    }
    static func s(_ l: Locale, _ k: String) -> String {
        STRINGS[l.rawValue]?[k] ?? k
    }
    static func interp(_ t: String, _ a: [String: String]) -> String {
        var out = t
        for (k, v) in a { out = out.replacingOccurrences(of: \"{{\\(k)}}\", with: v) }
        return out
    }
    static func plural(_ l: Locale, _ k: String, _ n: Int, _ a: [String: String]) -> String {
        let forms = PLURALS[l.rawValue]?[k]
        let cat = pluralCategory(l, n)
        let t = forms?[cat] ?? forms?[\"other\"] ?? \"\"
        return interp(t, a)
    }";

/// Type names the Swift output emits or Swift reserves; a namespace must not
/// become one of them.
pub open spec fn reserved_types() -> Seq<Seq<char>> {
    seq![
        "Locale"@, "SteleData"@, "String"@, "Int"@, "UInt"@, "Double"@, "Float"@, "Bool"@, "Character"@,
        "Any"@, "AnyObject"@, "Array"@, "Dictionary"@, "Optional"@, "Self"@, "Type"@, "Protocol"@,
        "Foundation"@,
    ]
}

fn is_reserved_type(s: &str) -> (r: bool)
    ensures
        r == reserved_types().contains(s@),
{
    let keys: [&str; 18] = [
        "Locale", "SteleData", "String", "Int", "UInt", "Double", "Float", "Bool", "Character",
        "Any", "AnyObject", "Array", "Dictionary", "Optional", "Self", "Type", "Protocol",
        "Foundation",
    ];
    proof {
        assert(keys@.map_values(|k: &str| k@) =~= reserved_types());
    }
    let mut i: usize = 0;
    while i < 18
        invariant
            i <= 18,
            keys@.map_values(|k: &str| k@) == reserved_types(),
            forall|j: int| 0 <= j < i ==> reserved_types()[j] != s@,
        decreases 18 - i,
    {
        if str_eq(keys[i], s) {
            proof {
                assert(reserved_types()[i as int] == s@);
            }
            return true;
        }
        i = i + 1;
    }
    false
}

/// Why Swift types of namespaces clash.
pub enum SwiftErr {
    Reserved(Seq<char>, Seq<char>),
    Collision(Seq<char>, Seq<char>, Seq<char>),
}

pub open spec fn swift_error(e: Error, x: SwiftErr) -> bool {
    match x {
        SwiftErr::Reserved(s, t) => e matches Error::SwiftReservedType { segment, ty } && segment@ == s && ty@ == t,
        SwiftErr::Collision(a, b, t) => e matches Error::SwiftTypeCollision { first, second, ty } && first@ == a
            && second@ == b && ty@ == t,
    }
}

/// The first `n` namespace segments of `path` checked: each becomes a
/// PascalCase struct type, which must not be the root type or a reserved type,
/// nor collide with a sibling's.
pub open spec fn swift_segs(h: Seq<SegSeen>, path: Seq<Seq<char>>, n: int, root: Seq<char>) -> Result<Seq<SegSeen>, SwiftErr>
    decreases n,
{
    if n <= 0 {
        Ok(h)
    } else {
        match swift_segs(h, path, n - 1, root) {
            Err(e) => Err(e),
            Ok(h2) => {
                let seg = path[n - 1];
                let ty = upper_camel(seg);
                if ty == root || reserved_types().contains(ty) {
                    Err(SwiftErr::Reserved(seg, ty))
                } else {
                    match first_same(h2, path.take(n - 1), ty) {
                        Some(orig) => if orig != seg {
                            Err(SwiftErr::Collision(orig, seg, ty))
                        } else {
                            Ok(h2.push((path.take(n - 1), seg, ty)))
                        },
                        None => Ok(h2.push((path.take(n - 1), seg, ty))),
                    }
                }
            },
        }
    }
}

/// The namespaces of the first `n` messages checked (every segment but a path's last).
pub open spec fn swift_msgs(msgs: Seq<MsgV>, n: int, root: Seq<char>) -> Result<Seq<SegSeen>, SwiftErr>
    decreases n,
{
    if n <= 0 {
        Ok(Seq::empty())
    } else {
        match swift_msgs(msgs, n - 1, root) {
            Err(e) => Err(e),
            Ok(h) => {
                let p = msgs[n - 1].path;
                swift_segs(h, p, if p.len() > 0 { p.len() - 1 } else { 0 }, root)
            },
        }
    }
}

proof fn lemma_swift_segs_err(h: Seq<SegSeen>, path: Seq<Seq<char>>, root: Seq<char>, k: int, n: int)
    requires
        0 <= k <= n,
        swift_segs(h, path, k, root) is Err,
    ensures
        swift_segs(h, path, n, root) == swift_segs(h, path, k, root),
    decreases n - k,
{
    if k < n {
        lemma_swift_segs_err(h, path, root, k + 1, n);
    }
}

proof fn lemma_swift_msgs_err(msgs: Seq<MsgV>, root: Seq<char>, k: int, n: int)
    requires
        0 <= k <= n,
        swift_msgs(msgs, k, root) is Err,
    ensures
        swift_msgs(msgs, n, root) == swift_msgs(msgs, k, root),
    decreases n - k,
{
    if k < n {
        lemma_swift_msgs_err(msgs, root, k + 1, n);
    }
}

fn swift_segments(hist: &mut Vec<(Vec<String>, String, String)>, path: &Vec<String>, n: usize, root: &String) -> (r: Result<(), Error>)
    requires
        n <= path@.len(),
    ensures
        match swift_segs(seen_view(old(hist)@), views(path@), n as int, root@) {
            Ok(h) => r is Ok && seen_view(final(hist)@) == h,
            Err(x) => r matches Err(e) && swift_error(e, x),
        },
{
    let ghost h0 = seen_view(hist@);
    let ghost pv = views(path@);
    let mut i: usize = 0;
    while i < n
        invariant
            i <= n,
            n <= path@.len(),
            pv == views(path@),
            h0 == seen_view(old(hist)@),
            swift_segs(h0, pv, i as int, root@) == Ok::<Seq<SegSeen>, SwiftErr>(seen_view(hist@)),
        decreases n - i,
    {
        let seg = &path[i];
        let ty = Case::Pascal.apply(seg.as_str());
        proof {
            assert(pv[i as int] == seg@);
        }
        if str_eq(ty.as_str(), root.as_str()) || is_reserved_type(ty.as_str()) {
            proof {
                lemma_swift_segs_err(h0, pv, root@, i as int + 1, n as int);
            }
            return Err(Error::SwiftReservedType { segment: copy_string(seg), ty });
        }
        match find_same(hist, path, i, &ty) {
            Some(orig) => {
                if !str_eq(orig.as_str(), seg.as_str()) {
                    proof {
                        lemma_swift_segs_err(h0, pv, root@, i as int + 1, n as int);
                    }
                    return Err(Error::SwiftTypeCollision { first: orig, second: copy_string(seg), ty });
                }
            },
            None => {},
        }
        let ghost before = hist@;
        let parent = prefix_of(path, i);
        let ghost tv = ty@;
        hist.push((parent, copy_string(seg), ty));
        proof {
            assert(seen_view(hist@) =~= seen_view(before).push((pv.take(i as int), pv[i as int], tv)));
        }
        i = i + 1;
    }
    Ok(())
}

/// The Swift output of the IR.
pub open spec fn swift_emit_spec(c: Case, ty: Seq<char>, ir: &Ir) -> Seq<char> {
    let msgs = messages_view(ir.messages@);
    let lv = views(ir.locales@);
    let cases = seq_join(lv.map_values(|l: Seq<char>| "    case "@ + locale_case_spec(l) + " = "@ + swift_lit_spec(l)), "\n"@);
    "// AUTO-GENERATED by stele \u{2014} do not edit.\n"@ + "// Source of truth: locales/*.json\n"@ + "import Foundation\n\n"@
        + "public enum Locale: String {\n"@ + cases + "\n}\n\n"@ + struct_spec(ty, build_tree(msgs, msgs.len() as int), msgs, c)
        + "\n\nenum SteleData {\n"@ + dict_block_spec("STRINGS: [String: [String: String]]"@, lv, msgs, false, c) + "\n"@
        + dict_block_spec("PLURALS: [String: [String: [String: String]]]"@, lv, msgs, true, c) + "\n"@
        + pcat_block_spec("PCAT_SMALL"@, ir, false) + "\n"@ + pcat_block_spec("PCAT_MOD"@, ir, true) + SWIFT_HELPERS@ + "\n}\n"@
}

impl Emitter for SwiftEmitter {
    /// The Swift output (see `swift_emit_spec`).
    fn emit(&self, ir: &Ir) -> (r: String)
        ensures
            r@ == swift_emit_spec(self.case, self.binding.ty@, ir),
    {
        let tree = build_tree_exec(ir);
        let ghost msgs = messages_view(ir.messages@);
        proof {
            assert forall|i: int| 0 <= i < msgs.len() implies #[trigger] msgs[i].path.len() > 0 by {
                assert(msgs[i] == ir.messages@[i]@);
            }
            lemma_build_tree_ok(msgs, msgs.len() as int, msgs.len() as int);
        }
        let ghost lv = views(ir.locales@);
        let ghost f = |l: Seq<char>| "    case "@ + locale_case_spec(l) + " = "@ + swift_lit_spec(l);
        let mut cs: Vec<String> = Vec::new();
        let mut i: usize = 0;
        while i < ir.locales.len()
            invariant
                i <= ir.locales@.len(),
                lv == views(ir.locales@),
                f == (|l: Seq<char>| "    case "@ + locale_case_spec(l) + " = "@ + swift_lit_spec(l)),
                views(cs@) == lv.take(i as int).map_values(f),
            decreases ir.locales@.len() - i,
        {
            let l = &ir.locales[i];
            let mut e = owned("    case ");
            push_str(&mut e, locale_case(l.as_str()).as_str());
            push_str(&mut e, " = ");
            push_str(&mut e, swift_lit(l.as_str()).as_str());
            let ghost before = cs@;
            cs.push(e);
            proof {
                assert(lv[i as int] == l@);
                assert(views(cs@) =~= views(before).push(e@));
                assert(lv.take(i + 1).map_values(f) =~= lv.take(i as int).map_values(f).push(f(lv[i as int])));
            }
            i = i + 1;
        }
        proof {
            assert(lv.take(ir.locales@.len() as int) =~= lv);
        }
        let cases = join(&cs, "\n");
        let strings = dict_block("STRINGS: [String: [String: String]]", ir, false, self.case);
        let plurals = dict_block("PLURALS: [String: [String: [String: String]]]", ir, true, self.case);
        let pcat_small = pcat_block("PCAT_SMALL", ir, false);
        let pcat_mod = pcat_block("PCAT_MOD", ir, true);
        let body = render_struct(self.binding.ty.as_str(), &tree, ir, self.case);
        let mut out = String::new();
        push_str(&mut out, "// AUTO-GENERATED by stele \u{2014} do not edit.\n");
        push_str(&mut out, "// Source of truth: locales/*.json\n");
        push_str(&mut out, "import Foundation\n\n");
        push_str(&mut out, "public enum Locale: String {\n");
        push_str(&mut out, cases.as_str());
        push_str(&mut out, "\n}\n\n");
        push_str(&mut out, body.as_str());
        push_str(&mut out, "\n\nenum SteleData {\n");
        push_str(&mut out, strings.as_str());
        push_str(&mut out, "\n");
        push_str(&mut out, plurals.as_str());
        push_str(&mut out, "\n");
        push_str(&mut out, pcat_small.as_str());
        push_str(&mut out, "\n");
        push_str(&mut out, pcat_mod.as_str());
        push_str(&mut out, SWIFT_HELPERS);
        push_str(&mut out, "\n}\n");
        out
    }

    /// Checks that nested namespaces, which become PascalCase struct types, do
    /// not collide with each other or with a built-in or emitted type (see `swift_msgs`).
    fn validate(&self, ir: &Ir) -> (r: Result<(), Error>)
        ensures
            match swift_msgs(messages_view(ir.messages@), ir.messages@.len() as int, self.binding.ty@) {
                Ok(_) => r is Ok,
                Err(x) => r matches Err(e) && swift_error(e, x),
            },
    {
        let ghost mv = messages_view(ir.messages@);
        let mut hist: Vec<(Vec<String>, String, String)> = Vec::new();
        proof {
            assert(seen_view(hist@) =~= Seq::<SegSeen>::empty());
        }
        let mut k: usize = 0;
        while k < ir.messages.len()
            invariant
                k <= ir.messages@.len(),
                mv == messages_view(ir.messages@),
                swift_msgs(mv, k as int, self.binding.ty@) == Ok::<Seq<SegSeen>, SwiftErr>(seen_view(hist@)),
            decreases ir.messages@.len() - k,
        {
            let m = &ir.messages[k];
            proof {
                assert(mv[k as int] == m@);
            }
            let n = if m.path.len() > 0 { m.path.len() - 1 } else { 0 };
            match swift_segments(&mut hist, &m.path, n, &self.binding.ty) {
                Ok(()) => {},
                Err(e) => {
                    proof {
                        lemma_swift_msgs_err(mv, self.binding.ty@, k as int + 1, mv.len() as int);
                    }
                    return Err(e);
                },
            }
            k = k + 1;
        }
        Ok(())
    }
}

/// The argument dictionary of a generated accessor is keyed by the names that
/// the baked strings carry: for a parameter whose name is a run of word
/// characters, if re-casing turns the placeholder `{{name}}` into `{{k}}`, the
/// entry of that parameter is the literal of `k` followed by its value.
pub proof fn law_arg_key_is_recased_placeholder(c: Case, p: (Seq<char>, ParamType), k: Seq<char>)
    requires
        p.0.len() > 0,
        forall|i: int| 0 <= i < p.0.len() ==> word_char(#[trigger] p.0[i]),
        recase_spec(seq!['{', '{'] + p.0 + seq!['}', '}'], c) == seq!['{', '{'] + k + seq!['}', '}'],
    ensures
        exists|v: Seq<char>| arg_entry(c, p) == swift_lit_spec(k) + ": "@ + v,
{
    let name = apply_spec(c, p.0);
    if c != Case::Preserve {
        lemma_rewrite_single(p.0, |n: Seq<char>| apply_spec(c, n));
    }
    let ph = seq!['{', '{'] + k + seq!['}', '}'];
    let pn = seq!['{', '{'] + name + seq!['}', '}'];
    assert(ph =~= pn);
    assert(k =~= ph.subrange(2, ph.len() - 2));
    assert(name =~= pn.subrange(2, pn.len() - 2));
    let ident = swift_ident_spec(name);
    let val = match p.1 {
        ParamType::Number => "String("@ + ident + ")"@,
        ParamType::String => ident,
    };
    assert(arg_entry(c, p) == swift_lit_spec(k) + ": "@ + val);
}

} // verus!
