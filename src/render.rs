use vstd::prelude::*;

use crate::text::{chars_of, string_of};
use crate::value::{lemma_entries_view, lemma_values_view, Json, Value};

verus! {

/// How a value tree is written out.
#[derive(Debug, Clone, Copy, PartialEq, Eq, Structural)]
pub struct RenderOptions {
    /// No white space at all; otherwise one child per indented line.
    pub minify: bool,
    /// Highlight strings, keys and `null` with terminal colour sequences.
    pub color: bool,
}

pub open spec fn highlight(code: char, s: Seq<char>) -> Seq<char> {
    seq!['\x1b', '[', '3', code, 'm'] + s + seq!['\x1b', '[', 'm']
}

pub open spec fn red_text(s: Seq<char>) -> Seq<char> {
    highlight('1', s)
}

pub open spec fn green_text(s: Seq<char>) -> Seq<char> {
    highlight('2', s)
}

pub open spec fn yellow_text(s: Seq<char>) -> Seq<char> {
    highlight('3', s)
}

pub open spec fn quoted(s: Seq<char>) -> Seq<char> {
    seq!['"'] + s + seq!['"']
}

pub open spec fn string_text(s: Seq<char>, color: bool) -> Seq<char> {
    quoted(if color { green_text(s) } else { s })
}

pub open spec fn key_text(k: Seq<char>, color: bool) -> Seq<char> {
    quoted(if color { yellow_text(k) } else { k })
}

pub open spec fn null_text(color: bool) -> Seq<char> {
    let n = seq!['n', 'u', 'l', 'l'];
    if color { red_text(n) } else { n }
}

pub open spec fn bool_text(b: bool) -> Seq<char> {
    if b {
        seq!['t', 'r', 'u', 'e']
    } else {
        seq!['f', 'a', 'l', 's', 'e']
    }
}

/// The text of a scalar, the same in both layouts.
pub open spec fn scalar_text(j: Json, color: bool) -> Seq<char> {
    match j {
        Json::Str(s) => string_text(s, color),
        Json::Num(n) => n,
        Json::Bool(b) => bool_text(b),
        _ => null_text(color),
    }
}

/// Compact text: no white space, `,` between children, `:` after keys.
pub open spec fn render_min(j: Json, color: bool) -> Seq<char>
    decreases j, 0nat,
{
    match j {
        Json::Array(items) => seq!['['] + min_items(items, color, items.len()) + seq![']'],
        Json::Object(es) => seq!['{'] + min_members(es, color, es.len()) + seq!['}'],
        _ => scalar_text(j, color),
    }
}

/// The first `n` elements of an array, compact.
pub open spec fn min_items(items: Seq<Json>, color: bool, n: nat) -> Seq<char>
    decreases items, n,
{
    if n == 0 || n > items.len() {
        Seq::empty()
    } else {
        min_items(items, color, (n - 1) as nat) + (if n > 1 {
            seq![',']
        } else {
            Seq::empty()
        }) + render_min(items[n - 1], color)
    }
}

/// The first `n` members of an object, compact.
pub open spec fn min_members(es: Seq<(Seq<char>, Json)>, color: bool, n: nat) -> Seq<char>
    decreases es, n,
{
    if n == 0 || n > es.len() {
        Seq::empty()
    } else {
        min_members(es, color, (n - 1) as nat) + (if n > 1 {
            seq![',']
        } else {
            Seq::empty()
        }) + key_text(es[n - 1].0, color) + seq![':'] + render_min(es[n - 1].1, color)
    }
}

pub open spec fn indent_step() -> Seq<char> {
    seq![' ', ' ', ' ']
}

/// Indented text: a container that holds children puts each on a line of
/// its own, indented three spaces past `pad`, and closes on a line at `pad`.
pub open spec fn render_ind(j: Json, color: bool, pad: Seq<char>) -> Seq<char>
    decreases j, 0nat,
{
    match j {
        Json::Array(items) => if items.len() == 0 {
            seq!['[', ']']
        } else {
            seq!['[', '\n'] + ind_items(items, color, pad, items.len()) + seq!['\n'] + pad + seq![
                ']',
            ]
        },
        Json::Object(es) => if es.len() == 0 {
            seq!['{', '}']
        } else {
            seq!['{', '\n'] + ind_members(es, color, pad, es.len()) + seq!['\n'] + pad + seq![
                '}',
            ]
        },
        _ => scalar_text(j, color),
    }
}

pub open spec fn line_sep(n: nat) -> Seq<char> {
    if n > 1 {
        seq![',', '\n']
    } else {
        Seq::empty()
    }
}

/// The lines of the first `n` elements of an array.
pub open spec fn ind_items(items: Seq<Json>, color: bool, pad: Seq<char>, n: nat) -> Seq<char>
    decreases items, n,
{
    if n == 0 || n > items.len() {
        Seq::empty()
    } else {
        let inner = pad + indent_step();
        ind_items(items, color, pad, (n - 1) as nat) + line_sep(n) + inner + render_ind(
            items[n - 1],
            color,
            inner,
        )
    }
}

/// The lines of the first `n` members of an object.
pub open spec fn ind_members(es: Seq<(Seq<char>, Json)>, color: bool, pad: Seq<char>, n: nat) -> Seq<
    char,
>
    decreases es, n,
{
    if n == 0 || n > es.len() {
        Seq::empty()
    } else {
        let inner = pad + indent_step();
        ind_members(es, color, pad, (n - 1) as nat) + line_sep(n) + inner + key_text(
            es[n - 1].0,
            color,
        ) + seq![':', ' '] + render_ind(es[n - 1].1, color, inner)
    }
}

/// The text of a value tree under the given options.
pub open spec fn render_text(j: Json, options: RenderOptions) -> Seq<char> {
    if options.minify {
        render_min(j, options.color)
    } else {
        render_ind(j, options.color, Seq::empty())
    }
}

fn push_chars(out: &mut Vec<char>, s: &[char])
    ensures
        final(out)@ == old(out)@ + s@,
{
    let mut i: usize = 0;
    while i < s.len()
        invariant
            i <= s@.len(),
            out@ == old(out)@ + s@.take(i as int),
        decreases s@.len() - i,
    {
        out.push(s[i]);
        i += 1;
        assert(out@ =~= old(out)@ + s@.take(i as int));
    }
    assert(s@.take(i as int) =~= s@);
}

fn push_highlight(out: &mut Vec<char>, code: char, s: &[char])
    ensures
        final(out)@ == old(out)@ + highlight(code, s@),
{
    out.push('\x1b');
    out.push('[');
    out.push('3');
    out.push(code);
    out.push('m');
    push_chars(out, s);
    out.push('\x1b');
    out.push('[');
    out.push('m');
    assert(out@ =~= old(out)@ + highlight(code, s@));
}

fn highlighted(code: char, s: &str) -> (r: String)
    ensures
        r@ == highlight(code, s@),
{
    let mut out: Vec<char> = Vec::new();
    let cs = chars_of(s);
    push_highlight(&mut out, code, cs.as_slice());
    assert(out@ =~= highlight(code, s@));
    string_of(out.as_slice())
}

/// `s` wrapped in the sequence that colours `null`.
pub fn red(s: &str) -> (r: String)
    ensures
        r@ == red_text(s@),
{
    highlighted('1', s)
}

/// `s` wrapped in the sequence that colours string values.
pub fn green(s: &str) -> (r: String)
    ensures
        r@ == green_text(s@),
{
    highlighted('2', s)
}

/// `s` wrapped in the sequence that colours object keys.
pub fn yellow(s: &str) -> (r: String)
    ensures
        r@ == yellow_text(s@),
{
    highlighted('3', s)
}

fn push_quoted(out: &mut Vec<char>, s: &String, color: bool, code: char)
    ensures
        final(out)@ == old(out)@ + quoted(
            if color {
                highlight(code, s@)
            } else {
                s@
            },
        ),
{
    let cs = chars_of(s.as_str());
    out.push('"');
    if color {
        push_highlight(out, code, cs.as_slice());
    } else {
        push_chars(out, cs.as_slice());
    }
    out.push('"');
    assert(out@ =~= old(out)@ + quoted(
        if color {
            highlight(code, s@)
        } else {
            s@
        },
    ));
}

/// Writes a value that holds no children.
fn push_scalar(out: &mut Vec<char>, v: &Value, color: bool)
    requires
        !(v is Array),
        !(v is Object),
    ensures
        final(out)@ == old(out)@ + scalar_text(v@, color),
{
    match v {
        Value::String(s) => {
            push_quoted(out, s, color, '2');
        },
        Value::Number(n) => {
            let cs = chars_of(n.text());
            push_chars(out, cs.as_slice());
        },
        Value::Bool(b) => {
            if *b {
                out.push('t');
                out.push('r');
                out.push('u');
                out.push('e');
            } else {
                out.push('f');
                out.push('a');
                out.push('l');
                out.push('s');
                out.push('e');
            }
            assert(out@ =~= old(out)@ + bool_text(*b));
        },
        _ => {
            let n = ['n', 'u', 'l', 'l'];
            if color {
                push_highlight(out, '1', n.as_slice());
            } else {
                push_chars(out, n.as_slice());
            }
            assert(n@ =~= seq!['n', 'u', 'l', 'l']);
        },
    }
}

fn write_min(out: &mut Vec<char>, v: &Value, color: bool)
    ensures
        final(out)@ == old(out)@ + render_min(v@, color),
    decreases v@,
{
    match v {
        Value::Array(vs) => {
            let ghost items = values_of(vs);
            proof {
                lemma_values_view(vs@, vs@.len());
                assert(v@ == Json::Array(items));
                assert forall|m: int| 0 <= m < vs@.len() implies decreases_to!(v@ => #[trigger] vs@[m]@) by {
                    assert(decreases_to!(v@ => v@->Array_0));
                    assert(decreases_to!(items => items[m]));
                }
            }
            out.push('[');
            let ghost start = out@;
            let mut i: usize = 0;
            while i < vs.len()
                invariant
                    i <= vs@.len(),
                    items == crate::value::values_view(vs@, vs@.len()),
                    items.len() == vs@.len(),
                    forall|m: int| 0 <= m < vs@.len() ==> #[trigger] items[m] == vs@[m]@,
                    forall|m: int| 0 <= m < vs@.len() ==> decreases_to!(v@ => #[trigger] vs@[m]@),
                    out@ == start + min_items(items, color, i as nat),
                decreases vs@.len() - i,
            {
                if i > 0 {
                    out.push(',');
                }
                assert(decreases_to!(v@ => vs@[i as int]@));
                write_min(out, &vs[i], color);
                i += 1;
                assert(out@ =~= start + min_items(items, color, i as nat));
            }
            out.push(']');
            assert(out@ =~= old(out)@ + render_min(v@, color));
        },
        Value::Object(o) => {
            let ghost es = o@;
            proof {
                lemma_entries_view(o.entries@, o.entries@.len());
                assert(v@ == Json::Object(es));
                assert forall|m: int| 0 <= m < o.entries@.len() implies decreases_to!(v@ => #[trigger] o.entries@[m].1@) by {
                    assert(decreases_to!(v@ => v@->Object_0));
                    assert(decreases_to!(es => es[m]));
                    assert(decreases_to!(es[m] => es[m].1));
                }
            }
            out.push('{');
            let ghost start = out@;
            let mut i: usize = 0;
            while i < o.entries.len()
                invariant
                    i <= o.entries@.len(),
                    es == o@,
                    es.len() == o.entries@.len(),
                    forall|m: int|
                        0 <= m < o.entries@.len() ==> #[trigger] es[m] == (
                            o.entries@[m].0@,
                            o.entries@[m].1@,
                        ),
                    forall|m: int|
                        0 <= m < o.entries@.len() ==> decreases_to!(v@ => #[trigger] o.entries@[m].1@),
                    out@ == start + min_members(es, color, i as nat),
                decreases o.entries@.len() - i,
            {
                if i > 0 {
                    out.push(',');
                }
                let e = &o.entries[i];
                push_quoted(out, &e.0, color, '3');
                out.push(':');
                assert(decreases_to!(v@ => o.entries@[i as int].1@));
                write_min(out, &e.1, color);
                i += 1;
                assert(out@ =~= start + min_members(es, color, i as nat));
            }
            out.push('}');
            assert(out@ =~= old(out)@ + render_min(v@, color));
        },
        _ => {
            push_scalar(out, v, color);
        },
    }
}

pub open spec fn values_of(vs: &Vec<Value>) -> Seq<Json> {
    crate::value::values_view(vs@, vs@.len())
}

fn write_ind(out: &mut Vec<char>, v: &Value, color: bool, pad: &Vec<char>)
    ensures
        final(out)@ == old(out)@ + render_ind(v@, color, pad@),
    decreases v@,
{
    match v {
        Value::Array(vs) => {
            let ghost items = values_of(vs);
            proof {
                lemma_values_view(vs@, vs@.len());
                assert(v@ == Json::Array(items));
                assert forall|m: int| 0 <= m < vs@.len() implies decreases_to!(v@ => #[trigger] vs@[m]@) by {
                    assert(decreases_to!(v@ => v@->Array_0));
                    assert(decreases_to!(items => items[m]));
                }
            }
            if vs.len() == 0 {
                out.push('[');
                out.push(']');
                assert(out@ =~= old(out)@ + render_ind(v@, color, pad@));
                return;
            }
            let mut inner = pad.clone();
            inner.push(' ');
            inner.push(' ');
            inner.push(' ');
            assert(inner@ =~= pad@ + indent_step());
            out.push('[');
            out.push('\n');
            let ghost start = out@;
            let mut i: usize = 0;
            while i < vs.len()
                invariant
                    i <= vs@.len(),
                    items == crate::value::values_view(vs@, vs@.len()),
                    items.len() == vs@.len(),
                    forall|m: int| 0 <= m < vs@.len() ==> #[trigger] items[m] == vs@[m]@,
                    forall|m: int| 0 <= m < vs@.len() ==> decreases_to!(v@ => #[trigger] vs@[m]@),
                    inner@ == pad@ + indent_step(),
                    out@ == start + ind_items(items, color, pad@, i as nat),
                decreases vs@.len() - i,
            {
                if i > 0 {
                    out.push(',');
                    out.push('\n');
                }
                push_chars(out, inner.as_slice());
                assert(decreases_to!(v@ => vs@[i as int]@));
                write_ind(out, &vs[i], color, &inner);
                i += 1;
                assert(out@ =~= start + ind_items(items, color, pad@, i as nat));
            }
            out.push('\n');
            push_chars(out, pad.as_slice());
            out.push(']');
            assert(out@ =~= old(out)@ + render_ind(v@, color, pad@));
        },
        Value::Object(o) => {
            let ghost es = o@;
            proof {
                lemma_entries_view(o.entries@, o.entries@.len());
                assert(v@ == Json::Object(es));
                assert forall|m: int| 0 <= m < o.entries@.len() implies decreases_to!(v@ => #[trigger] o.entries@[m].1@) by {
                    assert(decreases_to!(v@ => v@->Object_0));
                    assert(decreases_to!(es => es[m]));
                    assert(decreases_to!(es[m] => es[m].1));
                }
            }
            if o.entries.len() == 0 {
                out.push('{');
                out.push('}');
                assert(out@ =~= old(out)@ + render_ind(v@, color, pad@));
                return;
            }
            let mut inner = pad.clone();
            inner.push(' ');
            inner.push(' ');
            inner.push(' ');
            assert(inner@ =~= pad@ + indent_step());
            out.push('{');
            out.push('\n');
            let ghost start = out@;
            let mut i: usize = 0;
            while i < o.entries.len()
                invariant
                    i <= o.entries@.len(),
                    es == o@,
                    es.len() == o.entries@.len(),
                    forall|m: int|
                        0 <= m < o.entries@.len() ==> #[trigger] es[m] == (
                            o.entries@[m].0@,
                            o.entries@[m].1@,
                        ),
                    forall|m: int|
                        0 <= m < o.entries@.len() ==> decreases_to!(v@ => #[trigger] o.entries@[m].1@),
                    inner@ == pad@ + indent_step(),
                    out@ == start + ind_members(es, color, pad@, i as nat),
                decreases o.entries@.len() - i,
            {
                if i > 0 {
                    out.push(',');
                    out.push('\n');
                }
                push_chars(out, inner.as_slice());
                let e = &o.entries[i];
                push_quoted(out, &e.0, color, '3');
                out.push(':');
                out.push(' ');
                assert(decreases_to!(v@ => o.entries@[i as int].1@));
                write_ind(out, &e.1, color, &inner);
                i += 1;
                assert(out@ =~= start + ind_members(es, color, pad@, i as nat));
            }
            out.push('\n');
            push_chars(out, pad.as_slice());
            out.push('}');
            assert(out@ =~= old(out)@ + render_ind(v@, color, pad@));
        },
        _ => {
            push_scalar(out, v, color);
        },
    }
}

/// The text of a value tree: compact or indented, with or without colour.
pub fn render(value: &Value, options: RenderOptions) -> (r: String)
    ensures
        r@ == render_text(value@, options),
{
    let mut out: Vec<char> = Vec::new();
    if options.minify {
        write_min(&mut out, value, options.color);
    } else {
        let pad: Vec<char> = Vec::new();
        write_ind(&mut out, value, options.color, &pad);
        assert(pad@ =~= Seq::<char>::empty());
    }
    assert(out@ =~= render_text(value@, options));
    string_of(out.as_slice())
}

} // verus!
