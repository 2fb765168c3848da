use vstd::prelude::*;

use crate::lexer::{
    is_number_char, is_plain_escape, is_space, lex, lex_from, lex_step, lex_string, number_end,
    starts_number, SpecToken, Step,
};
use crate::parser::{parse_elements, parse_members, parse_tokens, parse_value};
use crate::render::{
    indent_step, ind_items, ind_members, key_text, line_sep, min_items, min_members, quoted,
    render_ind, render_min, render_text, scalar_text, RenderOptions,
};
use crate::value::{
    entries_get, entries_insert, is_exponent, is_mantissa, is_number_text, key_lt, keys_sorted,
    lemma_key_lt_irreflexive, lemma_key_lt_transitive, lemma_key_lt_trichotomy,
    lemma_mantissa_chars, unsigned_part, Json,
};

verus! {

/// The tokens that write a value in the shortest way.
pub open spec fn tokens_of(j: Json) -> Seq<SpecToken>
    decreases j, 0nat,
{
    match j {
        Json::Str(s) => seq![SpecToken::Str(s)],
        Json::Num(n) => seq![SpecToken::Num(n)],
        Json::Bool(b) => seq![SpecToken::Bool(b)],
        Json::Null => seq![SpecToken::Null],
        Json::Array(items) => seq![SpecToken::LBracket] + item_tokens(items, items.len()) + seq![
            SpecToken::RBracket,
        ],
        Json::Object(es) => seq![SpecToken::LBrace] + member_tokens(es, es.len()) + seq![
            SpecToken::RBrace,
        ],
    }
}

pub open spec fn comma_if(n: nat) -> Seq<SpecToken> {
    if n > 1 {
        seq![SpecToken::Comma]
    } else {
        Seq::empty()
    }
}

pub open spec fn item_tokens(items: Seq<Json>, n: nat) -> Seq<SpecToken>
    decreases items, n,
{
    if n == 0 || n > items.len() {
        Seq::empty()
    } else {
        item_tokens(items, (n - 1) as nat) + comma_if(n) + tokens_of(items[n - 1])
    }
}

pub open spec fn member_tokens(es: Seq<(Seq<char>, Json)>, n: nat) -> Seq<SpecToken>
    decreases es, n,
{
    if n == 0 || n > es.len() {
        Seq::empty()
    } else {
        member_tokens(es, (n - 1) as nat) + comma_if(n) + seq![
            SpecToken::Str(es[n - 1].0),
            SpecToken::Colon,
        ] + tokens_of(es[n - 1].1)
    }
}

/// Numbers are decimal literals and object keys ascend, at every level.
pub open spec fn well_formed(j: Json) -> bool
    decreases j, 0nat,
{
    match j {
        Json::Num(n) => is_number_text(n),
        Json::Array(items) => items_well_formed(items, items.len()),
        Json::Object(es) => keys_sorted(es) && members_well_formed(es, es.len()),
        _ => true,
    }
}

pub open spec fn items_well_formed(items: Seq<Json>, n: nat) -> bool
    decreases items, n,
{
    if n == 0 || n > items.len() {
        true
    } else {
        items_well_formed(items, (n - 1) as nat) && well_formed(items[n - 1])
    }
}

pub open spec fn members_well_formed(es: Seq<(Seq<char>, Json)>, n: nat) -> bool
    decreases es, n,
{
    if n == 0 || n > es.len() {
        true
    } else {
        members_well_formed(es, (n - 1) as nat) && well_formed(es[n - 1].1)
    }
}

/// A string body that reads back as itself: each backslash begins a kept
/// escape, and no quote stands outside one.
pub open spec fn plain_text(s: Seq<char>) -> bool
    decreases s.len(),
{
    if s.len() == 0 {
        true
    } else if s[0] == '\\' {
        s.len() >= 2 && is_plain_escape(s[1]) && plain_text(s.skip(2))
    } else {
        s[0] != '"' && plain_text(s.skip(1))
    }
}

/// Every string and every key of the tree is plain text.
pub open spec fn plain_json(j: Json) -> bool
    decreases j, 0nat,
{
    match j {
        Json::Str(s) => plain_text(s),
        Json::Array(items) => items_plain(items, items.len()),
        Json::Object(es) => members_plain(es, es.len()),
        _ => true,
    }
}

pub open spec fn items_plain(items: Seq<Json>, n: nat) -> bool
    decreases items, n,
{
    if n == 0 || n > items.len() {
        true
    } else {
        items_plain(items, (n - 1) as nat) && plain_json(items[n - 1])
    }
}

pub open spec fn members_plain(es: Seq<(Seq<char>, Json)>, n: nat) -> bool
    decreases es, n,
{
    if n == 0 || n > es.len() {
        true
    } else {
        members_plain(es, (n - 1) as nat) && plain_text(es[n - 1].0) && plain_json(es[n - 1].1)
    }
}

proof fn lemma_tokens_nonempty(j: Json)
    ensures
        tokens_of(j).len() >= 1,
        !(tokens_of(j)[0] is RBracket),
        !(tokens_of(j)[0] is RBrace),
{
}

proof fn lemma_items_well_formed(items: Seq<Json>, n: nat, k: int)
    requires
        items_well_formed(items, n),
        n <= items.len(),
        0 <= k < n,
    ensures
        well_formed(items[k]),
    decreases n,
{
    if k < n - 1 {
        lemma_items_well_formed(items, (n - 1) as nat, k);
    }
}

proof fn lemma_members_well_formed(es: Seq<(Seq<char>, Json)>, n: nat, k: int)
    requires
        members_well_formed(es, n),
        n <= es.len(),
        0 <= k < n,
    ensures
        well_formed(es[k].1),
    decreases n,
{
    if k < n - 1 {
        lemma_members_well_formed(es, (n - 1) as nat, k);
    }
}

/// Inserting a key above every key present appends the entry.
proof fn lemma_insert_last(es: Seq<(Seq<char>, Json)>, k: Seq<char>, v: Json)
    requires
        forall|m: int| 0 <= m < es.len() ==> key_lt(#[trigger] es[m].0, k),
    ensures
        entries_insert(es, k, v) == es.push((k, v)),
    decreases es.len(),
{
    if es.len() == 0 {
        assert(seq![(k, v)] =~= es.push((k, v)));
    } else {
        let rest = es.drop_first();
        lemma_key_lt_irreflexive(k);
        lemma_key_lt_trichotomy(k, es[0].0);
        assert forall|m: int| 0 <= m < rest.len() implies key_lt(#[trigger] rest[m].0, k) by {
            assert(rest[m] == es[m + 1]);
        }
        lemma_insert_last(rest, k, v);
        assert(seq![es[0]] + rest.push((k, v)) =~= es.push((k, v)));
    }
}

/// The tokens of the first `n` items lie at `i`; the tokens of the
/// elements read from `i` go on after them.
#[verifier::rlimit(80)]
proof fn lemma_parse_items(items: Seq<Json>, n: nat, ts: Seq<SpecToken>, i: int)
    requires
        1 <= n <= items.len(),
        items_well_formed(items, items.len()),
        0 <= i,
        i + item_tokens(items, n).len() < ts.len(),
        ts.subrange(i, i + item_tokens(items, n).len()) == item_tokens(items, n),
    ensures
        ({
            let q = i + item_tokens(items, n).len();
            &&& ts[q] is RBracket ==> parse_elements(ts, i, Seq::empty()) == Some(
                (Json::Array(items.take(n as int)), q + 1),
            )
            &&& ts[q] is Comma ==> parse_elements(ts, i, Seq::empty()) == parse_elements(
                ts,
                q + 1,
                items.take(n as int),
            )
        }),
    decreases items, n, 1nat,
{
    let prev = item_tokens(items, (n - 1) as nat);
    let last = tokens_of(items[n - 1]);
    let p = i + prev.len() + comma_if(n).len();
    let q = i + item_tokens(items, n).len();
    assert(item_tokens(items, n) == prev + comma_if(n) + last);
    lemma_items_well_formed(items, items.len(), n - 1);
    lemma_tokens_nonempty(items[n - 1]);
    assert(ts.subrange(p, q) =~= last) by {
        assert forall|m: int| 0 <= m < last.len() implies ts.subrange(p, q)[m] == last[m] by {
            assert(ts.subrange(i, q)[prev.len() + comma_if(n).len() + m] == ts[p + m]);
        }
    }
    assert(decreases_to!(items => items[n - 1]));
    lemma_parse_value(items[n - 1], ts, p);
    if n == 1 {
        assert(prev.len() == 0);
        assert(items.take(1) =~= Seq::<Json>::empty().push(items[0]));
    } else {
        assert(ts.subrange(i, i + prev.len()) =~= prev) by {
            assert forall|m: int| 0 <= m < prev.len() implies ts.subrange(i, i + prev.len())[m]
                == prev[m] by {
                assert(ts.subrange(i, q)[m] == ts[i + m]);
            }
        }
        assert(ts[i + prev.len()] == SpecToken::Comma) by {
            assert(ts.subrange(i, q)[prev.len() as int] == ts[i + prev.len()]);
        }
        lemma_parse_items(items, (n - 1) as nat, ts, i);
        assert(items.take(n - 1).push(items[n - 1]) =~= items.take(n as int));
    }
}

#[verifier::rlimit(80)]
proof fn lemma_parse_members(es: Seq<(Seq<char>, Json)>, n: nat, ts: Seq<SpecToken>, i: int)
    requires
        1 <= n <= es.len(),
        keys_sorted(es),
        members_well_formed(es, es.len()),
        0 <= i,
        i + member_tokens(es, n).len() < ts.len(),
        ts.subrange(i, i + member_tokens(es, n).len()) == member_tokens(es, n),
    ensures
        ({
            let q = i + member_tokens(es, n).len();
            &&& ts[q] is RBrace ==> parse_members(ts, i, Seq::empty()) == Some(
                (Json::Object(es.take(n as int)), q + 1),
            )
            &&& ts[q] is Comma ==> parse_members(ts, i, Seq::empty()) == parse_members(
                ts,
                q + 1,
                es.take(n as int),
            )
        }),
    decreases es, n, 1nat,
{
    let prev = member_tokens(es, (n - 1) as nat);
    let head = seq![SpecToken::Str(es[n - 1].0), SpecToken::Colon];
    let last = tokens_of(es[n - 1].1);
    let p = i + prev.len() + comma_if(n).len();
    let q = i + member_tokens(es, n).len();
    assert(member_tokens(es, n) == prev + comma_if(n) + head + last);
    lemma_members_well_formed(es, es.len(), n - 1);
    lemma_tokens_nonempty(es[n - 1].1);
    assert(ts[p] == SpecToken::Str(es[n - 1].0)) by {
        assert(ts.subrange(i, q)[prev.len() + comma_if(n).len() as int] == ts[p]);
    }
    assert(ts[p + 1] == SpecToken::Colon) by {
        assert(ts.subrange(i, q)[prev.len() + comma_if(n).len() + 1int] == ts[p + 1]);
    }
    assert(ts.subrange(p + 2, q) =~= last) by {
        assert forall|m: int| 0 <= m < last.len() implies ts.subrange(p + 2, q)[m] == last[m] by {
            assert(ts.subrange(i, q)[prev.len() + comma_if(n).len() + 2 + m] == ts[p + 2 + m]);
        }
    }
    assert(decreases_to!(es => es[n - 1]));
    assert(decreases_to!(es[n - 1] => es[n - 1].1));
    lemma_parse_value(es[n - 1].1, ts, p + 2);
    let acc = es.take(n - 1);
    assert forall|m: int| 0 <= m < acc.len() implies key_lt(#[trigger] acc[m].0, es[n - 1].0) by {
        assert(acc[m] == es[m]);
    }
    lemma_insert_last(acc, es[n - 1].0, es[n - 1].1);
    assert(acc.push((es[n - 1].0, es[n - 1].1)) =~= es.take(n as int));
    if n > 1 {
        assert(ts.subrange(i, i + prev.len()) =~= prev) by {
            assert forall|m: int| 0 <= m < prev.len() implies ts.subrange(i, i + prev.len())[m]
                == prev[m] by {
                assert(ts.subrange(i, q)[m] == ts[i + m]);
            }
        }
        assert(ts[i + prev.len()] == SpecToken::Comma) by {
            assert(ts.subrange(i, q)[prev.len() as int] == ts[i + prev.len()]);
        }
        lemma_parse_members(es, (n - 1) as nat, ts, i);
    } else {
        assert(acc =~= Seq::<(Seq<char>, Json)>::empty());
    }
}

/// Reading the tokens of a well-formed value gives the value back.
proof fn lemma_parse_value(j: Json, ts: Seq<SpecToken>, i: int)
    requires
        well_formed(j),
        0 <= i,
        i + tokens_of(j).len() <= ts.len(),
        ts.subrange(i, i + tokens_of(j).len()) == tokens_of(j),
    ensures
        parse_value(ts, i) == Some((j, i + tokens_of(j).len())),
    decreases j, 2nat,
{
    let t = tokens_of(j);
    assert(ts[i] == t[0]) by {
        assert(ts.subrange(i, i + t.len())[0] == ts[i]);
    }
    match j {
        Json::Array(items) => {
            let body = item_tokens(items, items.len());
            assert(ts[i + 1 + body.len()] == SpecToken::RBracket) by {
                assert(ts.subrange(i, i + t.len())[1 + body.len() as int] == ts[i + 1 + body.len()]);
            }
            if items.len() == 0 {
                assert(body.len() == 0);
                assert(items =~= Seq::<Json>::empty());
            } else {
                lemma_item_tokens_start(items, items.len());
                assert(ts.subrange(i + 1, i + 1 + body.len()) =~= body) by {
                    assert forall|m: int| 0 <= m < body.len() implies ts.subrange(
                        i + 1,
                        i + 1 + body.len(),
                    )[m] == body[m] by {
                        assert(ts.subrange(i, i + t.len())[1 + m] == ts[i + 1 + m]);
                    }
                }
                assert(ts[i + 1] == body[0]) by {
                    assert(ts.subrange(i + 1, i + 1 + body.len())[0] == ts[i + 1]);
                }
                lemma_parse_items(items, items.len(), ts, i + 1);
                assert(items.take(items.len() as int) =~= items);
            }
        },
        Json::Object(es) => {
            let body = member_tokens(es, es.len());
            assert(ts[i + 1 + body.len()] == SpecToken::RBrace) by {
                assert(ts.subrange(i, i + t.len())[1 + body.len() as int] == ts[i + 1 + body.len()]);
            }
            if es.len() == 0 {
                assert(body.len() == 0);
                assert(es =~= Seq::<(Seq<char>, Json)>::empty());
            } else {
                lemma_member_tokens_start(es, es.len());
                assert(ts.subrange(i + 1, i + 1 + body.len()) =~= body) by {
                    assert forall|m: int| 0 <= m < body.len() implies ts.subrange(
                        i + 1,
                        i + 1 + body.len(),
                    )[m] == body[m] by {
                        assert(ts.subrange(i, i + t.len())[1 + m] == ts[i + 1 + m]);
                    }
                }
                assert(ts[i + 1] == body[0]) by {
                    assert(ts.subrange(i + 1, i + 1 + body.len())[0] == ts[i + 1]);
                }
                lemma_parse_members(es, es.len(), ts, i + 1);
                assert(es.take(es.len() as int) =~= es);
            }
        },
        _ => {},
    }
}

/// The tokens of a non-empty run of items start with the first item's.
proof fn lemma_item_tokens_start(items: Seq<Json>, n: nat)
    requires
        1 <= n <= items.len(),
    ensures
        item_tokens(items, n).len() >= 1,
        item_tokens(items, n)[0] == tokens_of(items[0])[0],
    decreases n,
{
    lemma_tokens_nonempty(items[n - 1]);
    let prev = item_tokens(items, (n - 1) as nat);
    let last = tokens_of(items[n - 1]);
    assert(item_tokens(items, n) == prev + comma_if(n) + last);
    if n > 1 {
        lemma_item_tokens_start(items, (n - 1) as nat);
        assert((prev + comma_if(n) + last)[0] == prev[0]);
    } else {
        assert(prev.len() == 0);
        assert((prev + comma_if(n) + last)[0] == last[0]);
    }
}

/// The tokens of a non-empty run of members start with the first key.
proof fn lemma_member_tokens_start(es: Seq<(Seq<char>, Json)>, n: nat)
    requires
        1 <= n <= es.len(),
    ensures
        member_tokens(es, n).len() >= 1,
        member_tokens(es, n)[0] == SpecToken::Str(es[0].0),
    decreases n,
{
    let prev = member_tokens(es, (n - 1) as nat);
    let head = seq![SpecToken::Str(es[n - 1].0), SpecToken::Colon];
    let last = tokens_of(es[n - 1].1);
    assert(member_tokens(es, n) == prev + comma_if(n) + head + last);
    if n > 1 {
        lemma_member_tokens_start(es, (n - 1) as nat);
        assert((prev + comma_if(n) + head + last)[0] == prev[0]);
    } else {
        assert(prev.len() == 0);
        assert((prev + comma_if(n) + head + last)[0] == head[0]);
    }
}

pub open spec fn prepend(t: Seq<SpecToken>, r: Option<Seq<SpecToken>>) -> Option<Seq<SpecToken>> {
    match r {
        Some(rest) => Some(t + rest),
        None => None,
    }
}

/// Lexing from `i` reads the tokens `t` over the next `n` characters and
/// goes on from there.
pub open spec fn lexes_to(cs: Seq<char>, i: int, n: int, t: Seq<SpecToken>) -> bool {
    lex_from(cs, i) == prepend(t, lex_from(cs, i + n))
}

/// The text `r` stands in `cs` at `i`.
pub open spec fn stands_at(cs: Seq<char>, i: int, r: Seq<char>) -> bool {
    0 <= i && i + r.len() <= cs.len() && cs.subrange(i, i + r.len()) == r
}

/// No number goes on past position `k`.
pub open spec fn boundary(cs: Seq<char>, k: int) -> bool {
    k >= cs.len() || !is_number_char(cs[k])
}

pub open spec fn all_spaces(s: Seq<char>) -> bool {
    forall|k: int| 0 <= k < s.len() ==> #[trigger] s[k] == ' '
}

proof fn lemma_stands_split(cs: Seq<char>, i: int, a: Seq<char>, b: Seq<char>)
    requires
        stands_at(cs, i, a + b),
    ensures
        stands_at(cs, i, a),
        stands_at(cs, i + a.len(), b),
{
    assert(cs.subrange(i, i + a.len()) =~= a) by {
        assert forall|k: int| 0 <= k < a.len() implies cs.subrange(i, i + a.len())[k] == a[k] by {
            assert(cs.subrange(i, i + (a + b).len())[k] == cs[i + k]);
        }
    }
    assert(cs.subrange(i + a.len(), i + a.len() + b.len()) =~= b) by {
        assert forall|k: int| 0 <= k < b.len() implies cs.subrange(
            i + a.len(),
            i + a.len() + b.len(),
        )[k] == b[k] by {
            assert(cs.subrange(i, i + (a + b).len())[a.len() + k] == cs[i + a.len() + k]);
        }
    }
}

proof fn lemma_stands_char(cs: Seq<char>, i: int, r: Seq<char>, k: int)
    requires
        stands_at(cs, i, r),
        0 <= k < r.len(),
    ensures
        cs[i + k] == r[k],
{
    assert(cs.subrange(i, i + r.len())[k] == cs[i + k]);
}

proof fn lemma_lexes_empty(cs: Seq<char>, i: int)
    ensures
        lexes_to(cs, i, 0, Seq::empty()),
{
    match lex_from(cs, i) {
        Some(rest) => {
            assert(Seq::<SpecToken>::empty() + rest =~= rest);
        },
        None => {},
    }
}

proof fn lemma_lexes_trans(
    cs: Seq<char>,
    i: int,
    n1: int,
    t1: Seq<SpecToken>,
    n2: int,
    t2: Seq<SpecToken>,
)
    requires
        lexes_to(cs, i, n1, t1),
        lexes_to(cs, i + n1, n2, t2),
    ensures
        lexes_to(cs, i, n1 + n2, t1 + t2),
{
    match lex_from(cs, i + n1 + n2) {
        Some(rest) => {
            assert(t1 + (t2 + rest) =~= (t1 + t2) + rest);
        },
        None => {},
    }
}

/// One structural character or one white-space character.
proof fn lemma_lex_single(cs: Seq<char>, i: int)
    requires
        0 <= i < cs.len(),
    ensures
        cs[i] == '[' ==> lexes_to(cs, i, 1, seq![SpecToken::LBracket]),
        cs[i] == ']' ==> lexes_to(cs, i, 1, seq![SpecToken::RBracket]),
        cs[i] == '{' ==> lexes_to(cs, i, 1, seq![SpecToken::LBrace]),
        cs[i] == '}' ==> lexes_to(cs, i, 1, seq![SpecToken::RBrace]),
        cs[i] == ',' ==> lexes_to(cs, i, 1, seq![SpecToken::Comma]),
        cs[i] == ':' ==> lexes_to(cs, i, 1, seq![SpecToken::Colon]),
        is_space(cs[i]) ==> lexes_to(cs, i, 1, Seq::empty()),
{
    match lex_from(cs, i + 1) {
        Some(rest) => {
            assert(Seq::<SpecToken>::empty() + rest =~= rest);
        },
        None => {},
    }
}

proof fn lemma_lex_spaces(cs: Seq<char>, i: int, pad: Seq<char>)
    requires
        stands_at(cs, i, pad),
        all_spaces(pad),
    ensures
        lexes_to(cs, i, pad.len() as int, Seq::empty()),
    decreases pad.len(),
{
    if pad.len() == 0 {
        lemma_lexes_empty(cs, i);
    } else {
        let rest = pad.skip(1);
        assert(pad =~= seq![pad[0]] + rest);
        lemma_stands_split(cs, i, seq![pad[0]], rest);
        lemma_stands_char(cs, i, pad, 0);
        lemma_lex_single(cs, i);
        lemma_lex_spaces(cs, i + 1, rest);
        lemma_lexes_trans(cs, i, 1, Seq::empty(), rest.len() as int, Seq::empty());
        assert(Seq::<SpecToken>::empty() + Seq::<SpecToken>::empty() =~= Seq::<SpecToken>::empty());
    }
}

proof fn lemma_lex_plain(cs: Seq<char>, k: int, s: Seq<char>, acc: Seq<char>)
    requires
        plain_text(s),
        stands_at(cs, k, s),
        k + s.len() < cs.len(),
        cs[k + s.len()] == '"',
    ensures
        lex_string(cs, k, Seq::empty(), acc) == Some((acc + s, k + s.len() + 1)),
    decreases s.len(),
{
    if s.len() == 0 {
        assert(acc + s =~= acc);
        assert(acc + Seq::<char>::empty() =~= acc);
    } else if s[0] == '\\' {
        lemma_stands_char(cs, k, s, 0);
        lemma_stands_char(cs, k, s, 1);
        let rest = s.skip(2);
        assert(s =~= seq![s[0], s[1]] + rest);
        lemma_stands_split(cs, k, seq![s[0], s[1]], rest);
        lemma_lex_plain(cs, k + 2, rest, acc + Seq::<char>::empty() + seq!['\\', s[1]]);
        assert(acc + Seq::<char>::empty() + seq!['\\', s[1]] + rest =~= acc + s);
    } else {
        lemma_stands_char(cs, k, s, 0);
        let rest = s.skip(1);
        assert(s =~= seq![s[0]] + rest);
        lemma_stands_split(cs, k, seq![s[0]], rest);
        lemma_lex_plain(cs, k + 1, rest, acc + Seq::<char>::empty() + seq![s[0]]);
        assert(acc + Seq::<char>::empty() + seq![s[0]] + rest =~= acc + s);
    }
}

proof fn lemma_lex_string(cs: Seq<char>, i: int, s: Seq<char>)
    requires
        plain_text(s),
        stands_at(cs, i, quoted(s)),
    ensures
        lexes_to(cs, i, s.len() + 2int, seq![SpecToken::Str(s)]),
{
    lemma_stands_split(cs, i, seq!['"'] + s, seq!['"']);
    lemma_stands_split(cs, i, seq!['"'], s);
    lemma_stands_char(cs, i, quoted(s), 0);
    lemma_stands_char(cs, i, quoted(s), s.len() + 1int);
    lemma_lex_plain(cs, i + 1, s, Seq::empty());
    assert(Seq::<char>::empty() + s =~= s);
}

proof fn lemma_lex_word(cs: Seq<char>, i: int, w: Seq<char>, t: SpecToken)
    requires
        stands_at(cs, i, w),
        (w == seq!['t', 'r', 'u', 'e'] && t == SpecToken::Bool(true)) || (w == seq![
            'f',
            'a',
            'l',
            's',
            'e',
        ] && t == SpecToken::Bool(false)) || (w == seq!['n', 'u', 'l', 'l'] && t == SpecToken::Null),
    ensures
        lexes_to(cs, i, w.len() as int, seq![t]),
{
    lemma_stands_char(cs, i, w, 0);
}

/// The characters of a number literal are number characters, and the first
/// one starts a number.
#[verifier::rlimit(80)]
proof fn lemma_number_chars(n: Seq<char>)
    requires
        is_number_text(n),
    ensures
        n.len() > 0,
        starts_number(n[0]),
        forall|k: int| 0 <= k < n.len() ==> is_number_char(#[trigger] n[k]),
{
    let b = unsigned_part(n);
    let off: int = if n.len() > 0 && (n[0] == '+' || n[0] == '-') { 1 } else { 0 };
    assert(b =~= n.skip(off));
    if is_mantissa(b) {
        lemma_mantissa_chars(b);
        assert(b.len() > 0);
        assert forall|k: int| 0 <= k < n.len() implies is_number_char(#[trigger] n[k]) by {
            if k >= off {
                assert(b[k - off] == n[k]);
            }
        }
        assert(b[0] == n[off]);
    } else {
        let kk = choose|kk: int|
            0 < kk < b.len() && is_mantissa(b.take(kk)) && #[trigger] is_exponent(b.skip(kk));
        let m = b.take(kk);
        let x = b.skip(kk);
        lemma_mantissa_chars(m);
        assert forall|k: int| 0 <= k < n.len() implies is_number_char(#[trigger] n[k]) by {
            if k >= off {
                assert(b[k - off] == n[k]);
                if k - off < kk {
                    assert(m[k - off] == b[k - off]);
                } else {
                    assert(x[k - off - kk] == b[k - off]);
                    if k - off - kk >= 1 {
                        assert(x.skip(1)[k - off - kk - 1] == x[k - off - kk]);
                        if !(x.skip(1)[0] == '+' || x.skip(1)[0] == '-') || k - off - kk >= 2 {
                            if x.skip(1)[0] == '+' || x.skip(1)[0] == '-' {
                                assert(x.skip(1).skip(1)[k - off - kk - 2] == x[k - off - kk]);
                            }
                        }
                    }
                }
            }
        }
        assert(m[0] == b[0]);
        assert(b[0] == n[off]);
    }
}

proof fn lemma_number_end(cs: Seq<char>, i: int, k: int)
    requires
        0 <= i <= k <= cs.len(),
        forall|m: int| i <= m < k ==> is_number_char(#[trigger] cs[m]),
        boundary(cs, k),
    ensures
        number_end(cs, i) == k,
    decreases k - i,
{
    if i < k {
        lemma_number_end(cs, i + 1, k);
    }
}

proof fn lemma_lex_number(cs: Seq<char>, i: int, n: Seq<char>)
    requires
        is_number_text(n),
        stands_at(cs, i, n),
        boundary(cs, i + n.len()),
    ensures
        lexes_to(cs, i, n.len() as int, seq![SpecToken::Num(n)]),
{
    lemma_number_chars(n);
    lemma_stands_char(cs, i, n, 0);
    assert forall|m: int| i <= m < i + n.len() implies is_number_char(#[trigger] cs[m]) by {
        lemma_stands_char(cs, i, n, m - i);
    }
    lemma_number_end(cs, i, i + n.len());
    assert(lex_step(cs, i) == Step::Emit(SpecToken::Num(n), i + n.len()));
}

/// A scalar renders the same way in both layouts and lexes to its token.
proof fn lemma_lex_scalar(j: Json, cs: Seq<char>, i: int)
    requires
        !(j is Array),
        !(j is Object),
        well_formed(j),
        plain_json(j),
        stands_at(cs, i, scalar_text(j, false)),
        boundary(cs, i + scalar_text(j, false).len()),
    ensures
        lexes_to(cs, i, scalar_text(j, false).len() as int, tokens_of(j)),
{
    match j {
        Json::Str(s) => {
            lemma_lex_string(cs, i, s);
        },
        Json::Num(n) => {
            lemma_lex_number(cs, i, n);
        },
        Json::Bool(b) => {
            if b {
                lemma_lex_word(cs, i, seq!['t', 'r', 'u', 'e'], SpecToken::Bool(true));
            } else {
                lemma_lex_word(cs, i, seq!['f', 'a', 'l', 's', 'e'], SpecToken::Bool(false));
            }
        },
        _ => {
            lemma_lex_word(cs, i, seq!['n', 'u', 'l', 'l'], SpecToken::Null);
        },
    }
}

proof fn lemma_items_plain(items: Seq<Json>, n: nat, k: int)
    requires
        items_plain(items, n),
        n <= items.len(),
        0 <= k < n,
    ensures
        plain_json(items[k]),
    decreases n,
{
    if k < n - 1 {
        lemma_items_plain(items, (n - 1) as nat, k);
    }
}

proof fn lemma_members_plain(es: Seq<(Seq<char>, Json)>, n: nat, k: int)
    requires
        members_plain(es, n),
        n <= es.len(),
        0 <= k < n,
    ensures
        plain_text(es[k].0),
        plain_json(es[k].1),
    decreases n,
{
    if k < n - 1 {
        lemma_members_plain(es, (n - 1) as nat, k);
    }
}

/// A bracket or brace alone, then what follows it.
proof fn lemma_lex_opener(cs: Seq<char>, i: int, r: Seq<char>, t: SpecToken)
    requires
        stands_at(cs, i, r),
        r.len() >= 1,
        (r[0] == '[' && t == SpecToken::LBracket) || (r[0] == '{' && t == SpecToken::LBrace) || (
        r[0] == ']' && t == SpecToken::RBracket) || (r[0] == '}' && t == SpecToken::RBrace) || (
        r[0] == ',' && t == SpecToken::Comma) || (r[0] == ':' && t == SpecToken::Colon),
    ensures
        lexes_to(cs, i, 1, seq![t]),
{
    lemma_stands_char(cs, i, r, 0);
    lemma_lex_single(cs, i);
}

proof fn lemma_lex_min(j: Json, cs: Seq<char>, i: int)
    requires
        well_formed(j),
        plain_json(j),
        stands_at(cs, i, render_min(j, false)),
        boundary(cs, i + render_min(j, false).len()),
    ensures
        lexes_to(cs, i, render_min(j, false).len() as int, tokens_of(j)),
    decreases j, 2nat,
{
    let r = render_min(j, false);
    match j {
        Json::Array(items) => {
            let body = min_items(items, false, items.len());
            let bt = item_tokens(items, items.len());
            assert(r == seq!['['] + body + seq![']']);
            lemma_stands_split(cs, i, seq!['['] + body, seq![']']);
            lemma_stands_split(cs, i, seq!['['], body);
            lemma_lex_opener(cs, i, seq!['['], SpecToken::LBracket);
            lemma_lex_opener(cs, i + 1 + body.len(), seq![']'], SpecToken::RBracket);
            lemma_stands_char(cs, i + 1 + body.len(), seq![']'], 0);
            lemma_lex_min_items(items, items.len(), cs, i + 1);
            lemma_lexes_trans(cs, i, 1, seq![SpecToken::LBracket], body.len() as int, bt);
            lemma_lexes_trans(
                cs,
                i,
                1 + body.len() as int,
                seq![SpecToken::LBracket] + bt,
                1,
                seq![SpecToken::RBracket],
            );
        },
        Json::Object(es) => {
            let body = min_members(es, false, es.len());
            let bt = member_tokens(es, es.len());
            assert(r == seq!['{'] + body + seq!['}']);
            lemma_stands_split(cs, i, seq!['{'] + body, seq!['}']);
            lemma_stands_split(cs, i, seq!['{'], body);
            lemma_lex_opener(cs, i, seq!['{'], SpecToken::LBrace);
            lemma_lex_opener(cs, i + 1 + body.len(), seq!['}'], SpecToken::RBrace);
            lemma_stands_char(cs, i + 1 + body.len(), seq!['}'], 0);
            lemma_lex_min_members(es, es.len(), cs, i + 1);
            lemma_lexes_trans(cs, i, 1, seq![SpecToken::LBrace], body.len() as int, bt);
            lemma_lexes_trans(
                cs,
                i,
                1 + body.len() as int,
                seq![SpecToken::LBrace] + bt,
                1,
                seq![SpecToken::RBrace],
            );
        },
        _ => {
            lemma_lex_scalar(j, cs, i);
        },
    }
}

#[verifier::rlimit(80)]
proof fn lemma_lex_min_items(items: Seq<Json>, n: nat, cs: Seq<char>, i: int)
    requires
        n <= items.len(),
        items_well_formed(items, items.len()),
        items_plain(items, items.len()),
        stands_at(cs, i, min_items(items, false, n)),
        n > 0 ==> boundary(cs, i + min_items(items, false, n).len()),
    ensures
        lexes_to(cs, i, min_items(items, false, n).len() as int, item_tokens(items, n)),
    decreases items, n, 1nat,
{
    if n == 0 {
        lemma_lexes_empty(cs, i);
    } else {
        let prev = min_items(items, false, (n - 1) as nat);
        let sep: Seq<char> = if n > 1 {
            seq![',']
        } else {
            Seq::empty()
        };
        let last = render_min(items[n - 1], false);
        let pt = item_tokens(items, (n - 1) as nat);
        let lt = tokens_of(items[n - 1]);
        assert(min_items(items, false, n) == prev + sep + last);
        assert(item_tokens(items, n) == pt + comma_if(n) + lt);
        lemma_stands_split(cs, i, prev + sep, last);
        lemma_stands_split(cs, i, prev, sep);
        lemma_items_well_formed(items, items.len(), n - 1);
        lemma_items_plain(items, items.len(), n - 1);
        assert(decreases_to!(items => items[n - 1]));
        lemma_lex_min(items[n - 1], cs, i + prev.len() + sep.len());
        if n > 1 {
            lemma_stands_char(cs, i + prev.len(), sep, 0);
            lemma_lex_min_items(items, (n - 1) as nat, cs, i);
            lemma_lex_opener(cs, i + prev.len(), sep, SpecToken::Comma);
            lemma_lexes_trans(cs, i, prev.len() as int, pt, 1, comma_if(n));
            lemma_lexes_trans(cs, i, prev.len() + 1int, pt + comma_if(n), last.len() as int, lt);
        } else {
            assert(pt.len() == 0 && prev.len() == 0);
            assert(item_tokens(items, n) =~= lt);
        }
    }
}

#[verifier::rlimit(80)]
proof fn lemma_lex_min_members(es: Seq<(Seq<char>, Json)>, n: nat, cs: Seq<char>, i: int)
    requires
        n <= es.len(),
        members_well_formed(es, es.len()),
        members_plain(es, es.len()),
        stands_at(cs, i, min_members(es, false, n)),
        n > 0 ==> boundary(cs, i + min_members(es, false, n).len()),
    ensures
        lexes_to(cs, i, min_members(es, false, n).len() as int, member_tokens(es, n)),
    decreases es, n, 1nat,
{
    if n == 0 {
        lemma_lexes_empty(cs, i);
    } else {
        let prev = min_members(es, false, (n - 1) as nat);
        let sep: Seq<char> = if n > 1 {
            seq![',']
        } else {
            Seq::empty()
        };
        let key = key_text(es[n - 1].0, false);
        let last = render_min(es[n - 1].1, false);
        let pt = member_tokens(es, (n - 1) as nat);
        let head = seq![SpecToken::Str(es[n - 1].0), SpecToken::Colon];
        let lt = tokens_of(es[n - 1].1);
        assert(min_members(es, false, n) == prev + sep + key + seq![':'] + last);
        assert(member_tokens(es, n) == pt + comma_if(n) + head + lt);
        lemma_stands_split(cs, i, prev + sep + key + seq![':'], last);
        lemma_stands_split(cs, i, prev + sep + key, seq![':']);
        lemma_stands_split(cs, i, prev + sep, key);
        lemma_stands_split(cs, i, prev, sep);
        lemma_members_well_formed(es, es.len(), n - 1);
        lemma_members_plain(es, es.len(), n - 1);
        assert(decreases_to!(es => es[n - 1]));
        assert(decreases_to!(es[n - 1] => es[n - 1].1));
        let kpos = i + prev.len() + sep.len();
        lemma_lex_string(cs, kpos, es[n - 1].0);
        lemma_lex_opener(cs, kpos + key.len(), seq![':'], SpecToken::Colon);
        lemma_lex_min(es[n - 1].1, cs, kpos + key.len() + 1);
        lemma_lexes_trans(cs, kpos, key.len() as int, seq![SpecToken::Str(es[n - 1].0)], 1, seq![SpecToken::Colon]);
        assert(seq![SpecToken::Str(es[n - 1].0)] + seq![SpecToken::Colon] =~= head);
        lemma_lexes_trans(cs, kpos, key.len() + 1int, head, last.len() as int, lt);
        if n > 1 {
            lemma_stands_char(cs, i + prev.len(), sep, 0);
            lemma_lex_min_members(es, (n - 1) as nat, cs, i);
            lemma_lex_opener(cs, i + prev.len(), sep, SpecToken::Comma);
            lemma_lexes_trans(cs, i, prev.len() as int, pt, 1, comma_if(n));
            lemma_lexes_trans(
                cs,
                i,
                prev.len() + 1int,
                pt + comma_if(n),
                key.len() + 1int + last.len(),
                head + lt,
            );
            assert(pt + comma_if(n) + (head + lt) =~= pt + comma_if(n) + head + lt);
        } else {
            assert(pt.len() == 0 && prev.len() == 0);
            assert(member_tokens(es, n) =~= head + lt);
        }
    }
}

/// A line break, then `pad`: white space only.
proof fn lemma_lex_break(cs: Seq<char>, i: int, pad: Seq<char>)
    requires
        stands_at(cs, i, seq!['\n'] + pad),
        all_spaces(pad),
    ensures
        lexes_to(cs, i, 1 + pad.len() as int, Seq::empty()),
{
    lemma_stands_split(cs, i, seq!['\n'], pad);
    lemma_stands_char(cs, i, seq!['\n'], 0);
    lemma_lex_single(cs, i);
    lemma_lex_spaces(cs, i + 1, pad);
    lemma_lexes_trans(cs, i, 1, Seq::empty(), pad.len() as int, Seq::empty());
    assert(Seq::<SpecToken>::empty() + Seq::<SpecToken>::empty() =~= Seq::<SpecToken>::empty());
}

/// An indented container: opener, line break, its lines, line break, pad,
/// closer.
#[verifier::rlimit(80)]
proof fn lemma_lex_block(
    cs: Seq<char>,
    i: int,
    open: char,
    ot: SpecToken,
    body: Seq<char>,
    bt: Seq<SpecToken>,
    pad: Seq<char>,
    close: char,
    ct: SpecToken,
)
    requires
        stands_at(cs, i, seq![open, '\n'] + body + seq!['\n'] + pad + seq![close]),
        all_spaces(pad),
        (open == '[' && ot == SpecToken::LBracket && close == ']' && ct == SpecToken::RBracket) || (
        open == '{' && ot == SpecToken::LBrace && close == '}' && ct == SpecToken::RBrace),
        lexes_to(cs, i + 2, body.len() as int, bt),
    ensures
        lexes_to(
            cs,
            i,
            (seq![open, '\n'] + body + seq!['\n'] + pad + seq![close]).len() as int,
            seq![ot] + bt + seq![ct],
        ),
{
    let a = seq![open, '\n'];
    lemma_stands_split(cs, i, a + body + seq!['\n'] + pad, seq![close]);
    lemma_stands_split(cs, i, a + body + seq!['\n'], pad);
    lemma_stands_split(cs, i, a + body, seq!['\n']);
    lemma_stands_split(cs, i, a, body);
    assert(a =~= seq![open] + seq!['\n']);
    lemma_stands_split(cs, i, seq![open], seq!['\n']);
    lemma_lex_opener(cs, i, seq![open], ot);
    lemma_stands_char(cs, i + 1, seq!['\n'], 0);
    lemma_lex_single(cs, i + 1);
    lemma_lexes_trans(cs, i, 1, seq![ot], 1, Seq::empty());
    assert(seq![ot] + Seq::<SpecToken>::empty() =~= seq![ot]);
    lemma_lexes_trans(cs, i, 2, seq![ot], body.len() as int, bt);
    assert(stands_at(cs, i + 2 + body.len(), seq!['\n'] + pad)) by {
        assert(cs.subrange(i + 2 + body.len(), i + 2 + body.len() + 1 + pad.len()) =~= seq!['\n']
            + pad) by {
            assert forall|k: int| 0 <= k < 1 + pad.len() implies cs.subrange(
                i + 2 + body.len(),
                i + 2 + body.len() + 1 + pad.len(),
            )[k] == (seq!['\n'] + pad)[k] by {
                if k == 0 {
                    lemma_stands_char(cs, i + 2 + body.len(), seq!['\n'], 0);
                } else {
                    lemma_stands_char(cs, i + 2 + body.len() + 1, pad, k - 1);
                }
            }
        }
    }
    lemma_lex_break(cs, i + 2 + body.len(), pad);
    lemma_lexes_trans(cs, i, 2 + body.len() as int, seq![ot] + bt, 1 + pad.len() as int, Seq::empty());
    assert(seq![ot] + bt + Seq::<SpecToken>::empty() =~= seq![ot] + bt);
    lemma_lex_opener(cs, i + 3 + body.len() + pad.len(), seq![close], ct);
    lemma_lexes_trans(cs, i, 3 + body.len() as int + pad.len(), seq![ot] + bt, 1, seq![ct]);
}

#[verifier::rlimit(80)]
proof fn lemma_lex_ind(j: Json, pad: Seq<char>, cs: Seq<char>, i: int)
    requires
        well_formed(j),
        plain_json(j),
        all_spaces(pad),
        stands_at(cs, i, render_ind(j, false, pad)),
        boundary(cs, i + render_ind(j, false, pad).len()),
    ensures
        lexes_to(cs, i, render_ind(j, false, pad).len() as int, tokens_of(j)),
    decreases j, 2nat,
{
    let r = render_ind(j, false, pad);
    match j {
        Json::Array(items) => {
            if items.len() == 0 {
                assert(r == seq!['['] + seq![']']);
                lemma_stands_split(cs, i, seq!['['], seq![']']);
                lemma_lex_opener(cs, i, seq!['['], SpecToken::LBracket);
                lemma_lex_opener(cs, i + 1, seq![']'], SpecToken::RBracket);
                lemma_lexes_trans(cs, i, 1, seq![SpecToken::LBracket], 1, seq![SpecToken::RBracket]);
                assert(item_tokens(items, 0) =~= Seq::<SpecToken>::empty());
                assert(tokens_of(j) =~= seq![SpecToken::LBracket] + seq![SpecToken::RBracket]);
            } else {
                let body = ind_items(items, false, pad, items.len());
                let bt = item_tokens(items, items.len());
                assert(r == seq!['[', '\n'] + body + seq!['\n'] + pad + seq![']']);
                lemma_stands_split(cs, i, seq!['[', '\n'] + body + seq!['\n'] + pad, seq![']']);
                lemma_stands_split(cs, i, seq!['[', '\n'] + body + seq!['\n'], pad);
                lemma_stands_split(cs, i, seq!['[', '\n'] + body, seq!['\n']);
                lemma_stands_split(cs, i, seq!['[', '\n'], body);
                lemma_stands_char(cs, i + 2 + body.len(), seq!['\n'], 0);
                lemma_lex_ind_items(items, pad, items.len(), cs, i + 2);
                lemma_lex_block(cs, i, '[', SpecToken::LBracket, body, bt, pad, ']', SpecToken::RBracket);
            }
        },
        Json::Object(es) => {
            if es.len() == 0 {
                assert(r == seq!['{'] + seq!['}']);
                lemma_stands_split(cs, i, seq!['{'], seq!['}']);
                lemma_lex_opener(cs, i, seq!['{'], SpecToken::LBrace);
                lemma_lex_opener(cs, i + 1, seq!['}'], SpecToken::RBrace);
                lemma_lexes_trans(cs, i, 1, seq![SpecToken::LBrace], 1, seq![SpecToken::RBrace]);
                assert(member_tokens(es, 0) =~= Seq::<SpecToken>::empty());
                assert(tokens_of(j) =~= seq![SpecToken::LBrace] + seq![SpecToken::RBrace]);
            } else {
                let body = ind_members(es, false, pad, es.len());
                let bt = member_tokens(es, es.len());
                assert(r == seq!['{', '\n'] + body + seq!['\n'] + pad + seq!['}']);
                lemma_stands_split(cs, i, seq!['{', '\n'] + body + seq!['\n'] + pad, seq!['}']);
                lemma_stands_split(cs, i, seq!['{', '\n'] + body + seq!['\n'], pad);
                lemma_stands_split(cs, i, seq!['{', '\n'] + body, seq!['\n']);
                lemma_stands_split(cs, i, seq!['{', '\n'], body);
                lemma_stands_char(cs, i + 2 + body.len(), seq!['\n'], 0);
                lemma_lex_ind_members(es, pad, es.len(), cs, i + 2);
                lemma_lex_block(cs, i, '{', SpecToken::LBrace, body, bt, pad, '}', SpecToken::RBrace);
            }
        },
        _ => {
            lemma_lex_scalar(j, cs, i);
        },
    }
}

#[verifier::rlimit(80)]
proof fn lemma_lex_ind_items(items: Seq<Json>, pad: Seq<char>, n: nat, cs: Seq<char>, i: int)
    requires
        n <= items.len(),
        items_well_formed(items, items.len()),
        items_plain(items, items.len()),
        all_spaces(pad),
        stands_at(cs, i, ind_items(items, false, pad, n)),
        n > 0 ==> boundary(cs, i + ind_items(items, false, pad, n).len()),
    ensures
        lexes_to(cs, i, ind_items(items, false, pad, n).len() as int, item_tokens(items, n)),
    decreases items, n, 1nat,
{
    if n == 0 {
        lemma_lexes_empty(cs, i);
    } else {
        let inner = pad + indent_step();
        let prev = ind_items(items, false, pad, (n - 1) as nat);
        let sep = line_sep(n);
        let last = render_ind(items[n - 1], false, inner);
        let pt = item_tokens(items, (n - 1) as nat);
        let lt = tokens_of(items[n - 1]);
        assert(all_spaces(inner)) by {
            assert forall|k: int| 0 <= k < inner.len() implies #[trigger] inner[k] == ' ' by {
                if k >= pad.len() {
                    assert(inner[k] == indent_step()[k - pad.len()]);
                }
            }
        }
        assert(ind_items(items, false, pad, n) == prev + sep + inner + last);
        assert(item_tokens(items, n) == pt + comma_if(n) + lt);
        lemma_stands_split(cs, i, prev + sep + inner, last);
        lemma_stands_split(cs, i, prev + sep, inner);
        lemma_stands_split(cs, i, prev, sep);
        lemma_items_well_formed(items, items.len(), n - 1);
        lemma_items_plain(items, items.len(), n - 1);
        assert(decreases_to!(items => items[n - 1]));
        let cpos = i + prev.len() + sep.len();
        lemma_lex_spaces(cs, cpos, inner);
        lemma_lex_ind(items[n - 1], inner, cs, cpos + inner.len());
        lemma_lexes_trans(cs, cpos, inner.len() as int, Seq::empty(), last.len() as int, lt);
        assert(Seq::<SpecToken>::empty() + lt =~= lt);
        if n > 1 {
            assert(sep =~= seq![','] + seq!['\n']);
            lemma_stands_split(cs, i + prev.len(), seq![','], seq!['\n']);
            lemma_stands_char(cs, i + prev.len(), sep, 0);
            lemma_lex_ind_items(items, pad, (n - 1) as nat, cs, i);
            lemma_lex_opener(cs, i + prev.len(), sep, SpecToken::Comma);
            lemma_lex_break(cs, i + prev.len() + 1, Seq::empty());
            assert(seq!['\n'] + Seq::<char>::empty() =~= seq!['\n']);
            lemma_lexes_trans(cs, i + prev.len(), 1, comma_if(n), 1, Seq::empty());
            assert(comma_if(n) + Seq::<SpecToken>::empty() =~= comma_if(n));
            lemma_lexes_trans(cs, i, prev.len() as int, pt, 2, comma_if(n));
            lemma_lexes_trans(cs, i, prev.len() + 2int, pt + comma_if(n), inner.len() as int + last.len(), lt);
        } else {
            assert(pt.len() == 0 && prev.len() == 0 && sep.len() == 0);
            assert(item_tokens(items, n) =~= lt);
        }
    }
}

#[verifier::rlimit(80)]
proof fn lemma_lex_ind_members(es: Seq<(Seq<char>, Json)>, pad: Seq<char>, n: nat, cs: Seq<char>, i: int)
    requires
        n <= es.len(),
        members_well_formed(es, es.len()),
        members_plain(es, es.len()),
        all_spaces(pad),
        stands_at(cs, i, ind_members(es, false, pad, n)),
        n > 0 ==> boundary(cs, i + ind_members(es, false, pad, n).len()),
    ensures
        lexes_to(cs, i, ind_members(es, false, pad, n).len() as int, member_tokens(es, n)),
    decreases es, n, 1nat,
{
    if n == 0 {
        lemma_lexes_empty(cs, i);
    } else {
        let inner = pad + indent_step();
        let prev = ind_members(es, false, pad, (n - 1) as nat);
        let sep = line_sep(n);
        let key = key_text(es[n - 1].0, false);
        let last = render_ind(es[n - 1].1, false, inner);
        let pt = member_tokens(es, (n - 1) as nat);
        let head = seq![SpecToken::Str(es[n - 1].0), SpecToken::Colon];
        let lt = tokens_of(es[n - 1].1);
        assert(all_spaces(inner)) by {
            assert forall|k: int| 0 <= k < inner.len() implies #[trigger] inner[k] == ' ' by {
                if k >= pad.len() {
                    assert(inner[k] == indent_step()[k - pad.len()]);
                }
            }
        }
        assert(ind_members(es, false, pad, n) == prev + sep + inner + key + seq![':', ' '] + last);
        assert(member_tokens(es, n) == pt + comma_if(n) + head + lt);
        lemma_stands_split(cs, i, prev + sep + inner + key + seq![':', ' '], last);
        lemma_stands_split(cs, i, prev + sep + inner + key, seq![':', ' ']);
        lemma_stands_split(cs, i, prev + sep + inner, key);
        lemma_stands_split(cs, i, prev + sep, inner);
        lemma_stands_split(cs, i, prev, sep);
        lemma_members_well_formed(es, es.len(), n - 1);
        lemma_members_plain(es, es.len(), n - 1);
        assert(decreases_to!(es => es[n - 1]));
        assert(decreases_to!(es[n - 1] => es[n - 1].1));
        let cpos = i + prev.len() + sep.len();
        let kpos = cpos + inner.len();
        let vpos = kpos + key.len() + 2;
        lemma_lex_spaces(cs, cpos, inner);
        lemma_lex_string(cs, kpos, es[n - 1].0);
        assert(seq![':', ' '] =~= seq![':'] + seq![' ']);
        lemma_stands_split(cs, kpos + key.len(), seq![':'], seq![' ']);
        lemma_lex_opener(cs, kpos + key.len(), seq![':'], SpecToken::Colon);
        lemma_stands_char(cs, kpos + key.len() + 1, seq![' '], 0);
        lemma_lex_single(cs, kpos + key.len() + 1);
        lemma_lex_ind(es[n - 1].1, inner, cs, vpos);
        lemma_lexes_trans(cs, kpos + key.len(), 1, seq![SpecToken::Colon], 1, Seq::empty());
        assert(seq![SpecToken::Colon] + Seq::<SpecToken>::empty() =~= seq![SpecToken::Colon]);
        lemma_lexes_trans(cs, kpos, key.len() as int, seq![SpecToken::Str(es[n - 1].0)], 2, seq![SpecToken::Colon]);
        assert(seq![SpecToken::Str(es[n - 1].0)] + seq![SpecToken::Colon] =~= head);
        lemma_lexes_trans(cs, kpos, key.len() + 2int, head, last.len() as int, lt);
        lemma_lexes_trans(cs, cpos, inner.len() as int, Seq::empty(), key.len() as int + 2 + last.len(), head + lt);
        assert(Seq::<SpecToken>::empty() + (head + lt) =~= head + lt);
        if n > 1 {
            assert(sep =~= seq![','] + seq!['\n']);
            lemma_stands_split(cs, i + prev.len(), seq![','], seq!['\n']);
            lemma_stands_char(cs, i + prev.len(), sep, 0);
            lemma_lex_ind_members(es, pad, (n - 1) as nat, cs, i);
            lemma_lex_opener(cs, i + prev.len(), sep, SpecToken::Comma);
            lemma_lex_break(cs, i + prev.len() + 1, Seq::empty());
            assert(seq!['\n'] + Seq::<char>::empty() =~= seq!['\n']);
            lemma_lexes_trans(cs, i + prev.len(), 1, comma_if(n), 1, Seq::empty());
            assert(comma_if(n) + Seq::<SpecToken>::empty() =~= comma_if(n));
            lemma_lexes_trans(cs, i, prev.len() as int, pt, 2, comma_if(n));
            lemma_lexes_trans(
                cs,
                i,
                prev.len() + 2int,
                pt + comma_if(n),
                inner.len() as int + key.len() + 2 + last.len(),
                head + lt,
            );
            assert(pt + comma_if(n) + (head + lt) =~= pt + comma_if(n) + head + lt);
        } else {
            assert(pt.len() == 0 && prev.len() == 0 && sep.len() == 0);
            assert(member_tokens(es, n) =~= head + lt);
        }
    }
}

/// Every number token of a sequence is a decimal literal.
pub open spec fn numbers_valid(ts: Seq<SpecToken>) -> bool {
    forall|k: int| 0 <= k < ts.len() && (#[trigger] ts[k] is Num) ==> is_number_text(ts[k]->Num_0)
}

proof fn lemma_lex_numbers_valid(cs: Seq<char>, i: int)
    requires
        lex_from(cs, i) is Some,
    ensures
        numbers_valid(lex_from(cs, i)->0),
    decreases cs.len() - i,
{
    match lex_step(cs, i) {
        Step::Emit(t, j) => {
            if i < j <= cs.len() {
                lemma_lex_numbers_valid(cs, j);
                let rest = lex_from(cs, j)->0;
                if !(t is Space) {
                    let all = seq![t] + rest;
                    assert forall|k: int| 0 <= k < all.len() && (#[trigger] all[k] is Num) implies is_number_text(
                        all[k]->Num_0,
                    ) by {
                        if k > 0 {
                            assert(all[k] == rest[k - 1]);
                        }
                    }
                }
            }
        },
        _ => {},
    }
}

proof fn lemma_items_well_formed_all(s: Seq<Json>, n: nat)
    requires
        n <= s.len(),
    ensures
        items_well_formed(s, n) <==> (forall|k: int| 0 <= k < n ==> well_formed(#[trigger] s[k])),
    decreases n,
{
    if n > 0 {
        lemma_items_well_formed_all(s, (n - 1) as nat);
    }
}

proof fn lemma_members_well_formed_all(s: Seq<(Seq<char>, Json)>, n: nat)
    requires
        n <= s.len(),
    ensures
        members_well_formed(s, n) <==> (forall|k: int| 0 <= k < n ==> well_formed(#[trigger] s[k].1)),
    decreases n,
{
    if n > 0 {
        lemma_members_well_formed_all(s, (n - 1) as nat);
    }
}

/// Inserting keeps the keys ascending, and each entry of the result is the
/// new one or an old one.
#[verifier::rlimit(80)]
proof fn lemma_insert_entries(es: Seq<(Seq<char>, Json)>, k: Seq<char>, v: Json)
    requires
        keys_sorted(es),
    ensures
        keys_sorted(entries_insert(es, k, v)),
        forall|m: int|
            0 <= m < entries_insert(es, k, v).len() ==> #[trigger] entries_insert(es, k, v)[m] == (
            k,
            v,
        ) || exists|m2: int| 0 <= m2 < es.len() && entries_insert(es, k, v)[m] == es[m2],
    decreases es.len(),
{
    let ins = entries_insert(es, k, v);
    if es.len() == 0 {
    } else {
        let rest = es.drop_first();
        assert forall|a: int, b: int| 0 <= a < b < rest.len() implies key_lt(
            #[trigger] rest[a].0,
            #[trigger] rest[b].0,
        ) by {
            assert(rest[a] == es[a + 1] && rest[b] == es[b + 1]);
        }
        if es[0].0 == k {
            assert forall|m: int| 0 <= m < ins.len() implies #[trigger] ins[m] == (k, v) || exists|
                m2: int,
            | 0 <= m2 < es.len() && ins[m] == es[m2] by {
                if m > 0 {
                    assert(ins[m] == es[m]);
                }
            }
            assert forall|a: int, b: int| 0 <= a < b < ins.len() implies key_lt(
                #[trigger] ins[a].0,
                #[trigger] ins[b].0,
            ) by {
                assert(ins[b] == es[b]);
                if a > 0 {
                    assert(ins[a] == es[a]);
                } else {
                    assert(key_lt(es[0].0, es[b].0));
                }
            }
        } else if key_lt(k, es[0].0) {
            assert forall|m: int| 0 <= m < ins.len() implies #[trigger] ins[m] == (k, v) || exists|
                m2: int,
            | 0 <= m2 < es.len() && ins[m] == es[m2] by {
                if m > 0 {
                    assert(ins[m] == es[m - 1]);
                }
            }
            assert forall|a: int, b: int| 0 <= a < b < ins.len() implies key_lt(
                #[trigger] ins[a].0,
                #[trigger] ins[b].0,
            ) by {
                assert(ins[b] == es[b - 1]);
                if a > 0 {
                    assert(ins[a] == es[a - 1]);
                } else if b > 1 {
                    assert(key_lt(es[0].0, es[b - 1].0));
                    lemma_key_lt_transitive(k, es[0].0, es[b - 1].0);
                }
            }
        } else {
            lemma_insert_entries(rest, k, v);
            let sub = entries_insert(rest, k, v);
            lemma_key_lt_trichotomy(k, es[0].0);
            assert(ins == seq![es[0]] + sub);
            assert forall|m: int| 0 <= m < ins.len() implies #[trigger] ins[m] == (k, v) || exists|
                m2: int,
            | 0 <= m2 < es.len() && ins[m] == es[m2] by {
                if m == 0 {
                    assert(ins[0] == es[0]);
                } else {
                    assert(ins[m] == sub[m - 1]);
                    if sub[m - 1] != (k, v) {
                        let m2 = choose|m2: int| 0 <= m2 < rest.len() && sub[m - 1] == rest[m2];
                        assert(ins[m] == es[m2 + 1]);
                    }
                }
            }
            assert forall|a: int, b: int| 0 <= a < b < ins.len() implies key_lt(
                #[trigger] ins[a].0,
                #[trigger] ins[b].0,
            ) by {
                assert(ins[b] == sub[b - 1]);
                if a > 0 {
                    assert(ins[a] == sub[a - 1]);
                } else {
                    if sub[b - 1] == (k, v) {
                    } else {
                        let m2 = choose|m2: int| 0 <= m2 < rest.len() && sub[b - 1] == rest[m2];
                        assert(rest[m2] == es[m2 + 1]);
                    }
                }
            }
        }
    }
}

/// What the grammar reads from valid tokens is well formed.
proof fn lemma_parse_well_formed(ts: Seq<SpecToken>, i: int)
    requires
        numbers_valid(ts),
        parse_value(ts, i) is Some,
    ensures
        match parse_value(ts, i) {
            Some((v, _)) => well_formed(v),
            None => true,
        },
    decreases ts.len() - i, 1int,
{
    if 0 <= i < ts.len() {
        match ts[i] {
            SpecToken::LBrace => {
                if !(ts[i + 1] is RBrace) {
                    lemma_parsed_members_well_formed(ts, i + 1, Seq::empty());
                }
            },
            SpecToken::LBracket => {
                if !(ts[i + 1] is RBracket) {
                    lemma_parsed_elements_well_formed(ts, i + 1, Seq::empty());
                }
            },
            _ => {},
        }
    }
}

proof fn lemma_parsed_elements_well_formed(ts: Seq<SpecToken>, i: int, acc: Seq<Json>)
    requires
        numbers_valid(ts),
        parse_elements(ts, i, acc) is Some,
        forall|k: int| 0 <= k < acc.len() ==> well_formed(#[trigger] acc[k]),
    ensures
        match parse_elements(ts, i, acc) {
            Some((v, _)) => well_formed(v),
            None => true,
        },
    decreases ts.len() - i, 2int,
{
    let (v, k) = parse_value(ts, i)->0;
    lemma_parse_well_formed(ts, i);
    let next = acc.push(v);
    assert forall|m: int| 0 <= m < next.len() implies well_formed(#[trigger] next[m]) by {
        if m < acc.len() {
            assert(next[m] == acc[m]);
        }
    }
    if ts[k] is Comma {
        lemma_parsed_elements_well_formed(ts, k + 1, next);
    } else {
        lemma_items_well_formed_all(next, next.len());
    }
}

proof fn lemma_parsed_members_well_formed(ts: Seq<SpecToken>, i: int, acc: Seq<(Seq<char>, Json)>)
    requires
        numbers_valid(ts),
        parse_members(ts, i, acc) is Some,
        keys_sorted(acc),
        forall|k: int| 0 <= k < acc.len() ==> well_formed(#[trigger] acc[k].1),
    ensures
        match parse_members(ts, i, acc) {
            Some((v, _)) => well_formed(v),
            None => true,
        },
    decreases ts.len() - i, 2int,
{
    let key = ts[i]->Str_0;
    let (v, k) = parse_value(ts, i + 2)->0;
    lemma_parse_well_formed(ts, i + 2);
    let next = entries_insert(acc, key, v);
    lemma_insert_entries(acc, key, v);
    assert forall|m: int| 0 <= m < next.len() implies well_formed(#[trigger] next[m].1) by {
        if next[m] != (key, v) {
            let m2 = choose|m2: int| 0 <= m2 < acc.len() && next[m] == acc[m2];
            assert(well_formed(acc[m2].1));
        }
    }
    if ts[k] is Comma {
        lemma_parsed_members_well_formed(ts, k + 1, next);
    } else {
        lemma_members_well_formed_all(next, next.len());
    }
}

/// Any text reads back as the tokens of its value.
proof fn lemma_lex_rendered(j: Json, opts: RenderOptions)
    requires
        !opts.color,
        well_formed(j),
        plain_json(j),
    ensures
        lex(render_text(j, opts)) == Some(tokens_of(j)),
{
    let t = render_text(j, opts);
    assert(t.subrange(0, t.len() as int) =~= t);
    if opts.minify {
        lemma_lex_min(j, t, 0);
    } else {
        lemma_lex_ind(j, Seq::empty(), t, 0);
    }
    assert(lex_from(t, t.len() as int) == Some(Seq::<SpecToken>::empty()));
    assert(tokens_of(j) + Seq::<SpecToken>::empty() =~= tokens_of(j));
}

/// Parsing the text of a well-formed value with plain strings gives the
/// value back, in either layout without colour.
pub proof fn law_parse_render_round_trip(j: Json, opts: RenderOptions)
    requires
        !opts.color,
        well_formed(j),
        plain_json(j),
    ensures
        lex(render_text(j, opts)) matches Some(ts) && parse_tokens(ts) == Some(j),
{
    lemma_lex_rendered(j, opts);
    let tj = tokens_of(j);
    assert(tj.subrange(0, tj.len() as int) =~= tj);
    lemma_parse_value(j, tj, 0);
}

/// After an insert the key maps to the new value and every other key keeps
/// what it had: of two entries with one key, the later one stays.
pub proof fn law_insert_then_get(es: Seq<(Seq<char>, Json)>, k: Seq<char>, v: Json, other: Seq<char>)
    requires
        keys_sorted(es),
    ensures
        entries_get(entries_insert(es, k, v), k) == Some(v),
        other != k ==> entries_get(entries_insert(es, k, v), other) == entries_get(es, other),
        keys_sorted(entries_insert(es, k, v)),
    decreases es.len(),
{
    lemma_insert_entries(es, k, v);
    if es.len() == 0 {
        let ins = entries_insert(es, k, v);
        assert(ins.drop_first() =~= Seq::<(Seq<char>, Json)>::empty());
        assert(entries_get(ins.drop_first(), other) is None);
    } else {
        let rest = es.drop_first();
        assert forall|a: int, b: int| 0 <= a < b < rest.len() implies key_lt(
            #[trigger] rest[a].0,
            #[trigger] rest[b].0,
        ) by {
            assert(rest[a] == es[a + 1] && rest[b] == es[b + 1]);
        }
        let ins = entries_insert(es, k, v);
        if es[0].0 != k && !key_lt(k, es[0].0) {
            law_insert_then_get(rest, k, v, other);
            let sub = entries_insert(rest, k, v);
            assert(ins == seq![es[0]] + sub);
            assert(ins[0] == es[0]);
            assert(ins.drop_first() =~= sub);
            if other != k && es[0].0 != other {
                assert(entries_get(ins, other) == entries_get(sub, other));
                assert(entries_get(es, other) == entries_get(rest, other));
            }
        } else if es[0].0 == k {
            assert(ins == seq![(k, v)] + rest);
            assert(ins[0] == (k, v));
            assert(ins.drop_first() =~= rest);
            if other != k {
                assert(entries_get(ins, other) == entries_get(rest, other));
                assert(entries_get(es, other) == entries_get(rest, other));
            }
        } else {
            assert(ins == seq![(k, v)] + es);
            assert(ins[0] == (k, v));
            assert(ins.drop_first() =~= es);
            if other != k {
                assert(entries_get(ins, other) == entries_get(es, other));
            }
        }
    }
}

/// A scalar literal reads as its scalar: a decimal literal as that number,
/// `true`, `false` and `null` as themselves, and a quoted plain string as
/// that string.
pub proof fn law_scalar_literals(j: Json)
    requires
        !(j is Array),
        !(j is Object),
        well_formed(j),
        plain_json(j),
    ensures
        lex(scalar_text(j, false)) matches Some(ts) && parse_tokens(ts) == Some(j),
{
    let opts = RenderOptions { minify: true, color: false };
    assert(render_text(j, opts) == scalar_text(j, false));
    law_parse_render_round_trip(j, opts);
}

/// What a text parses to is well formed: its numbers are decimal literals
/// and the keys of each object ascend, whatever order the text gave them in.
pub proof fn law_parsed_values_well_formed(x: Seq<char>)
    requires
        lex(x) is Some,
        parse_tokens(lex(x)->0) is Some,
    ensures
        well_formed(parse_tokens(lex(x)->0)->0),
{
    lemma_lex_numbers_valid(x, 0);
    lemma_parse_well_formed(lex(x)->0, 0);
}

/// Nothing in the tree takes a colour: no string, no key, no `null`.
pub open spec fn colour_free(j: Json) -> bool
    decreases j, 0nat,
{
    match j {
        Json::Str(_) => false,
        Json::Null => false,
        Json::Array(items) => items_colour_free(items, items.len()),
        Json::Object(es) => es.len() == 0,
        _ => true,
    }
}

pub open spec fn items_colour_free(items: Seq<Json>, n: nat) -> bool
    decreases items, n,
{
    if n == 0 || n > items.len() {
        true
    } else {
        items_colour_free(items, (n - 1) as nat) && colour_free(items[n - 1])
    }
}

proof fn lemma_colour_free_render(j: Json, pad: Seq<char>)
    requires
        colour_free(j),
    ensures
        render_min(j, true) == render_min(j, false),
        render_ind(j, true, pad) == render_ind(j, false, pad),
    decreases j, 2nat,
{
    match j {
        Json::Array(items) => {
            lemma_colour_free_items(items, items.len(), pad);
        },
        Json::Object(es) => {
            assert(min_members(es, true, 0) == min_members(es, false, 0));
        },
        _ => {},
    }
}

proof fn lemma_colour_free_items(items: Seq<Json>, n: nat, pad: Seq<char>)
    requires
        n <= items.len(),
        items_colour_free(items, n),
    ensures
        min_items(items, true, n) == min_items(items, false, n),
        ind_items(items, true, pad, n) == ind_items(items, false, pad, n),
    decreases items, n, 1nat,
{
    if n > 0 {
        assert(decreases_to!(items => items[n - 1]));
        lemma_colour_free_items(items, (n - 1) as nat, pad);
        lemma_colour_free_render(items[n - 1], pad + indent_step());
    }
}

/// Canonical text is a fixed point: render what a text parses to, parse
/// that rendering and render again, and the first rendering comes back.
/// This holds for values whose strings and keys read back as themselves
/// (each backslash begins a kept escape, no quote stands alone), and with
/// colour only where the tree holds nothing to colour.
pub proof fn law_render_parse_fixed_point(x: Seq<char>, opts: RenderOptions)
    requires
        lex(x) is Some,
        parse_tokens(lex(x)->0) is Some,
        plain_json(parse_tokens(lex(x)->0)->0),
        opts.color ==> colour_free(parse_tokens(lex(x)->0)->0),
    ensures
        ({
            let t = render_text(parse_tokens(lex(x)->0)->0, opts);
            &&& lex(t) is Some
            &&& parse_tokens(lex(t)->0) is Some
            &&& render_text(parse_tokens(lex(t)->0)->0, opts) == t
        }),
{
    let j = parse_tokens(lex(x)->0)->0;
    let plain = RenderOptions { minify: opts.minify, color: false };
    lemma_colour_free_render_text(j, opts);
    law_parsed_values_well_formed(x);
    law_parse_render_round_trip(j, plain);
}

proof fn lemma_colour_free_render_text(j: Json, opts: RenderOptions)
    requires
        opts.color ==> colour_free(j),
    ensures
        render_text(j, opts) == render_text(j, RenderOptions { minify: opts.minify, color: false }),
{
    if opts.color {
        lemma_colour_free_render(j, Seq::empty());
    }
}

} // verus!
