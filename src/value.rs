use vstd::prelude::*;

use crate::text::chars_of;

verus! {

/// The mathematical model of a JSON value.
pub enum Json {
    Str(Seq<char>),
    Num(Seq<char>),
    Bool(bool),
    Null,
    Array(Seq<Json>),
    Object(Seq<(Seq<char>, Json)>),
}

pub open spec fn is_digit(c: char) -> bool {
    '0' <= c && c <= '9'
}

pub open spec fn all_digits(s: Seq<char>) -> bool {
    forall|i: int| 0 <= i < s.len() ==> is_digit(#[trigger] s[i])
}

/// Digits with at most one decimal point, holding at least one digit.
pub open spec fn is_mantissa(m: Seq<char>) -> bool {
    ||| (m.len() > 0 && all_digits(m))
    ||| exists|d: int|
        0 <= d < m.len() && m.len() > 1 && #[trigger] m[d] == '.' && all_digits(m.take(d))
            && all_digits(m.skip(d + 1))
}

/// An exponent marker, an optional sign and at least one digit.
pub open spec fn is_exponent(x: Seq<char>) -> bool {
    &&& x.len() >= 2
    &&& (x[0] == 'e' || x[0] == 'E')
    &&& ({
        let rest = x.skip(1);
        if rest[0] == '+' || rest[0] == '-' {
            rest.len() > 1 && all_digits(rest.skip(1))
        } else {
            all_digits(rest)
        }
    })
}

pub open spec fn unsigned_part(s: Seq<char>) -> Seq<char> {
    if s.len() > 0 && (s[0] == '+' || s[0] == '-') {
        s.skip(1)
    } else {
        s
    }
}

/// The decimal floating-point literals: an optional sign, a mantissa and an
/// optional exponent.
pub open spec fn is_number_text(s: Seq<char>) -> bool {
    let b = unsigned_part(s);
    ||| is_mantissa(b)
    ||| exists|k: int| 0 < k < b.len() && is_mantissa(b.take(k)) && #[trigger] is_exponent(b.skip(k))
}

/// Lexicographic order of keys, character by character on code points.
pub open spec fn key_lt(a: Seq<char>, b: Seq<char>) -> bool
    decreases a.len(),
{
    if a.len() == 0 {
        b.len() > 0
    } else if b.len() == 0 {
        false
    } else if a[0] != b[0] {
        (a[0] as u32) < (b[0] as u32)
    } else {
        key_lt(a.drop_first(), b.drop_first())
    }
}

/// Keys in strictly ascending order, so each key occurs once.
pub open spec fn keys_sorted(es: Seq<(Seq<char>, Json)>) -> bool {
    forall|i: int, j: int| 0 <= i < j < es.len() ==> key_lt(#[trigger] es[i].0, #[trigger] es[j].0)
}

/// Inserting into a sorted association list: an entry with an equal key is
/// replaced, otherwise the new entry goes before the first larger key.
pub open spec fn entries_insert(es: Seq<(Seq<char>, Json)>, k: Seq<char>, v: Json) -> Seq<(Seq<char>, Json)>
    decreases es.len(),
{
    if es.len() == 0 {
        seq![(k, v)]
    } else if es[0].0 == k {
        seq![(k, v)] + es.drop_first()
    } else if key_lt(k, es[0].0) {
        seq![(k, v)] + es
    } else {
        seq![es[0]] + entries_insert(es.drop_first(), k, v)
    }
}

/// The value that a key maps to in an association list.
pub open spec fn entries_get(es: Seq<(Seq<char>, Json)>, k: Seq<char>) -> Option<Json>
    decreases es.len(),
{
    if es.len() == 0 {
        None
    } else if es[0].0 == k {
        Some(es[0].1)
    } else {
        entries_get(es.drop_first(), k)
    }
}

pub proof fn lemma_key_lt_irreflexive(a: Seq<char>)
    ensures
        !key_lt(a, a),
    decreases a.len(),
{
    if a.len() > 0 {
        lemma_key_lt_irreflexive(a.drop_first());
    }
}

pub proof fn lemma_key_lt_trichotomy(a: Seq<char>, b: Seq<char>)
    ensures
        a == b || key_lt(a, b) || key_lt(b, a),
        !(key_lt(a, b) && key_lt(b, a)),
    decreases a.len(),
{
    if a.len() > 0 && b.len() > 0 && a[0] == b[0] {
        lemma_key_lt_trichotomy(a.drop_first(), b.drop_first());
        if a.drop_first() == b.drop_first() {
            assert(a =~= seq![a[0]] + a.drop_first());
            assert(b =~= seq![b[0]] + b.drop_first());
        }
    } else if a.len() == 0 && b.len() == 0 {
        assert(a =~= b);
    } else if a.len() > 0 && b.len() > 0 {
        vstd::utf8::char_u32_cast(a[0], a[0] as u32);
        vstd::utf8::char_u32_cast(b[0], b[0] as u32);
    }
}

pub proof fn lemma_key_lt_transitive(a: Seq<char>, b: Seq<char>, c: Seq<char>)
    requires
        key_lt(a, b),
        key_lt(b, c),
    ensures
        key_lt(a, c),
    decreases a.len(),
{
    if a.len() > 0 && b.len() > 0 && c.len() > 0 && a[0] == b[0] && b[0] == c[0] {
        lemma_key_lt_transitive(a.drop_first(), b.drop_first(), c.drop_first());
    }
}

/// A JSON number, held as its decimal literal.
#[derive(Debug, Clone, PartialEq)]
pub struct Number {
    pub(crate) text: String,
}

impl View for Number {
    type V = Seq<char>;

    open(crate) spec fn view(&self) -> Seq<char> {
        self.text@
    }
}

/// A JSON object: entries kept in ascending order of their keys.
#[derive(Debug, PartialEq)]
pub struct Object {
    pub(crate) entries: Vec<(String, Value)>,
}

/// A JSON value tree.
#[derive(Debug, PartialEq)]
pub enum Value {
    String(String),
    Number(Number),
    Bool(bool),
    Null,
    Array(Vec<Value>),
    Object(Object),
}

pub open spec fn values_view(vs: Seq<Value>, n: nat) -> Seq<Json>
    decreases vs, n,
{
    if n == 0 || n > vs.len() {
        Seq::empty()
    } else {
        values_view(vs, (n - 1) as nat).push(vs[n - 1].view_json())
    }
}

pub open spec fn entries_view(es: Seq<(String, Value)>, n: nat) -> Seq<(Seq<char>, Json)>
    decreases es, n,
{
    if n == 0 || n > es.len() {
        Seq::empty()
    } else {
        entries_view(es, (n - 1) as nat).push((es[n - 1].0@, es[n - 1].1.view_json()))
    }
}

impl Value {
    pub open(crate) spec fn view_json(&self) -> Json
        decreases self, 0nat,
    {
        match self {
            Value::String(s) => Json::Str(s@),
            Value::Number(n) => Json::Num(n@),
            Value::Bool(b) => Json::Bool(*b),
            Value::Null => Json::Null,
            Value::Array(vs) => Json::Array(values_view(vs@, vs@.len())),
            Value::Object(o) => Json::Object(entries_view(o.entries@, o.entries@.len())),
        }
    }
}

impl View for Value {
    type V = Json;

    open spec fn view(&self) -> Json {
        self.view_json()
    }
}

impl View for Object {
    type V = Seq<(Seq<char>, Json)>;

    open(crate) spec fn view(&self) -> Seq<(Seq<char>, Json)> {
        entries_view(self.entries@, self.entries@.len())
    }
}

pub proof fn lemma_values_view(vs: Seq<Value>, n: nat)
    requires
        n <= vs.len(),
    ensures
        values_view(vs, n).len() == n,
        forall|m: int| 0 <= m < n ==> #[trigger] values_view(vs, n)[m] == vs[m]@,
    decreases n,
{
    if n > 0 {
        lemma_values_view(vs, (n - 1) as nat);
    }
}

pub proof fn lemma_entries_view(es: Seq<(String, Value)>, n: nat)
    requires
        n <= es.len(),
    ensures
        entries_view(es, n).len() == n,
        forall|m: int|
            0 <= m < n ==> #[trigger] entries_view(es, n)[m] == (es[m].0@, es[m].1@),
    decreases n,
{
    if n > 0 {
        lemma_entries_view(es, (n - 1) as nat);
    }
}

proof fn lemma_key_lt_skip(a: Seq<char>, b: Seq<char>, i: int)
    requires
        0 <= i <= a.len(),
        i <= b.len(),
        forall|m: int| 0 <= m < i ==> a[m] == b[m],
    ensures
        key_lt(a, b) == key_lt(a.skip(i), b.skip(i)),
    decreases i,
{
    if i > 0 {
        lemma_key_lt_skip(a.drop_first(), b.drop_first(), i - 1);
        assert(a.drop_first().skip(i - 1) =~= a.skip(i));
        assert(b.drop_first().skip(i - 1) =~= b.skip(i));
    } else {
        assert(a.skip(0) =~= a);
        assert(b.skip(0) =~= b);
    }
}

/// Whether key `a` comes before key `b`.
pub(crate) fn key_less(a: &Vec<char>, b: &Vec<char>) -> (r: bool)
    ensures
        r == key_lt(a@, b@),
{
    let mut i: usize = 0;
    while i < a.len() && i < b.len() && a[i] == b[i]
        invariant
            i <= a.len(),
            i <= b.len(),
            forall|m: int| 0 <= m < i ==> a@[m] == b@[m],
        decreases a.len() - i,
    {
        i += 1;
    }
    proof {
        lemma_key_lt_skip(a@, b@, i as int);
    }
    if i == a.len() {
        i < b.len()
    } else if i == b.len() {
        false
    } else {
        (a[i] as u32) < (b[i] as u32)
    }
}

/// Inserting at the first position whose key is not below the new key.
proof fn lemma_insert_at(es: Seq<(Seq<char>, Json)>, k: Seq<char>, v: Json, i: int)
    requires
        0 <= i <= es.len(),
        forall|m: int| 0 <= m < i ==> key_lt(#[trigger] es[m].0, k),
        i < es.len() ==> !key_lt(es[i].0, k),
    ensures
        i < es.len() && es[i].0 == k ==> entries_insert(es, k, v) == es.update(i, (k, v)),
        !(i < es.len() && es[i].0 == k) ==> entries_insert(es, k, v) == es.insert(i, (k, v)),
    decreases i,
{
    if i == 0 {
        if es.len() > 0 {
            lemma_key_lt_trichotomy(k, es[0].0);
            assert(seq![(k, v)] + es.drop_first() =~= es.update(0, (k, v)));
        }
        assert(seq![(k, v)] + es =~= es.insert(0, (k, v)));
    } else {
        let rest = es.drop_first();
        assert(key_lt(es[0].0, k));
        lemma_key_lt_irreflexive(k);
        lemma_key_lt_trichotomy(k, es[0].0);
        assert forall|m: int| 0 <= m < i - 1 implies key_lt(#[trigger] rest[m].0, k) by {
            assert(rest[m] == es[m + 1]);
        }
        lemma_insert_at(rest, k, v, i - 1);
        if i < es.len() {
            assert(seq![es[0]] + rest.update(i - 1, (k, v)) =~= es.update(i, (k, v)));
        }
        assert(seq![es[0]] + rest.insert(i - 1, (k, v)) =~= es.insert(i, (k, v)));
    }
}

impl Object {
    /// Keys in strictly ascending order.
    pub open spec fn wf(&self) -> bool {
        keys_sorted(self@)
    }

    /// An object with no entries.
    pub fn new() -> (r: Object)
        ensures
            r@ == Seq::<(Seq<char>, Json)>::empty(),
            r.wf(),
    {
        Object { entries: Vec::new() }
    }

    /// The number of entries.
    pub fn len(&self) -> (r: usize)
        ensures
            r == self@.len(),
    {
        proof {
            lemma_entries_view(self.entries@, self.entries@.len());
        }
        self.entries.len()
    }

    /// The entry at position `i`, in ascending order of keys.
    pub fn entry(&self, i: usize) -> (r: Option<(&String, &Value)>)
        ensures
            i < self@.len() ==> (r matches Some((k, v)) && (k@, v@) == self@[i as int]),
            i >= self@.len() ==> r is None,
    {
        proof {
            lemma_entries_view(self.entries@, self.entries@.len());
        }
        if i < self.entries.len() {
            let e = &self.entries[i];
            Some((&e.0, &e.1))
        } else {
            None
        }
    }

    /// The first position whose key is not below `kc`.
    fn lower_bound(&self, kc: &Vec<char>) -> (r: usize)
        ensures
            r <= self@.len(),
            forall|m: int| 0 <= m < r ==> key_lt(#[trigger] self@[m].0, kc@),
            r < self@.len() ==> !key_lt(self@[r as int].0, kc@),
    {
        proof {
            lemma_entries_view(self.entries@, self.entries@.len());
        }
        let mut i: usize = 0;
        while i < self.entries.len()
            invariant
                i <= self.entries@.len(),
                self@.len() == self.entries@.len(),
                forall|m: int| 0 <= m < self.entries@.len() ==> #[trigger] self@[m] == (
                    self.entries@[m].0@,
                    self.entries@[m].1@,
                ),
                forall|m: int| 0 <= m < i ==> key_lt(#[trigger] self@[m].0, kc@),
            decreases self.entries.len() - i,
        {
            let ec = chars_of(self.entries[i].0.as_str());
            if !key_less(&ec, kc) {
                return i;
            }
            i += 1;
        }
        i
    }

    /// The value stored under `key`.
    pub fn get(&self, key: &str) -> (r: Option<&Value>)
        ensures
            r matches Some(v) ==> entries_get(self@, key@) == Some(v@),
            r is None ==> entries_get(self@, key@) is None,
    {
        proof {
            lemma_entries_view(self.entries@, self.entries@.len());
        }
        let ghost es = self@;
        let k = key.to_owned();
        let mut i: usize = 0;
        assert(es.skip(0) =~= es);
        while i < self.entries.len()
            invariant
                i <= self.entries@.len(),
                k@ == key@,
                es == self@,
                es.len() == self.entries@.len(),
                forall|m: int| 0 <= m < self.entries@.len() ==> #[trigger] es[m] == (
                    self.entries@[m].0@,
                    self.entries@[m].1@,
                ),
                entries_get(es, key@) == entries_get(es.skip(i as int), key@),
            decreases self.entries.len() - i,
        {
            let ghost tail = es.skip(i as int);
            assert(tail[0] == es[i as int]);
            assert(tail.drop_first() =~= es.skip(i + 1));
            if self.entries[i].0 == k {
                return Some(&self.entries[i].1);
            }
            i += 1;
        }
        None
    }

    /// Stores `value` under `key`, replacing an entry with the same key.
    pub fn insert(&mut self, key: String, value: Value)
        requires
            old(self).wf(),
        ensures
            final(self)@ == entries_insert(old(self)@, key@, value@),
            final(self).wf(),
    {
        let ghost es = self@;
        let ghost k = key@;
        let ghost v = value@;
        proof {
            lemma_entries_view(self.entries@, self.entries@.len());
        }
        let kc = chars_of(key.as_str());
        let i = self.lower_bound(&kc);
        proof {
            lemma_insert_at(es, k, v, i as int);
            lemma_key_lt_irreflexive(k);
        }
        let replace = i < self.entries.len() && self.entries[i].0 == key;
        if replace {
            self.entries[i] = (key, value);
            proof {
                lemma_entries_view(self.entries@, self.entries@.len());
                assert(self@ =~= es.update(i as int, (k, v)));
            }
        } else {
            self.entries.insert(i, (key, value));
            proof {
                lemma_entries_view(self.entries@, self.entries@.len());
                assert(self@ =~= es.insert(i as int, (k, v)));
                if i < es.len() {
                    lemma_key_lt_trichotomy(k, es[i as int].0);
                }
            }
        }
        proof {
            let ns = self@;
            assert forall|a: int, b: int| 0 <= a < b < ns.len() implies key_lt(
                #[trigger] ns[a].0,
                #[trigger] ns[b].0,
            ) by {
                if replace {
                    if b == i {
                        assert(ns[a] == es[a]);
                    } else if a == i {
                        assert(ns[b] == es[b]);
                        lemma_key_lt_irreflexive(k);
                    } else {
                        assert(ns[a] == es[a] && ns[b] == es[b]);
                    }
                } else {
                    if a < i && b == i {
                        assert(ns[a] == es[a]);
                    } else if a == i {
                        assert(ns[b] == es[b - 1]);
                        if b - 1 > i {
                            lemma_key_lt_transitive(k, es[i as int].0, es[b - 1].0);
                        }
                    } else if b < i {
                        assert(ns[a] == es[a] && ns[b] == es[b]);
                    } else if a < i {
                        assert(ns[a] == es[a] && ns[b] == es[b - 1]);
                    } else {
                        assert(ns[a] == es[a - 1] && ns[b] == es[b - 1]);
                    }
                }
            }
        }
    }
}

impl Number {
    /// The number written by `text`, if it is a decimal literal.
    pub fn new(text: &str) -> (r: Option<Number>)
        ensures
            r is Some <==> is_number_text(text@),
            r matches Some(n) ==> n@ == text@,
    {
        let cs = chars_of(text);
        if is_number_literal(&cs) {
            Some(Number { text: text.to_owned() })
        } else {
            None
        }
    }

    /// The literal that writes this number.
    pub fn text(&self) -> (r: &str)
        ensures
            r@ == self@,
    {
        self.text.as_str()
    }

    /// A second number with the same literal.
    pub fn duplicate(&self) -> (r: Number)
        ensures
            r@ == self@,
    {
        Number { text: self.text.clone() }
    }
}

/// The characters of a mantissa are digits and points.
pub proof fn lemma_mantissa_chars(m: Seq<char>)
    requires
        is_mantissa(m),
    ensures
        forall|i: int| 0 <= i < m.len() ==> is_digit(#[trigger] m[i]) || m[i] == '.',
{
    if !(m.len() > 0 && all_digits(m)) {
        let d = choose|d: int|
            0 <= d < m.len() && m.len() > 1 && #[trigger] m[d] == '.' && all_digits(m.take(d))
                && all_digits(m.skip(d + 1));
        assert forall|i: int| 0 <= i < m.len() implies is_digit(#[trigger] m[i]) || m[i] == '.' by {
            if i < d {
                assert(m.take(d)[i] == m[i]);
            } else if i > d {
                assert(m.skip(d + 1)[i - d - 1] == m[i]);
            }
        }
    }
}

fn digits_between(cs: &Vec<char>, lo: usize, hi: usize) -> (r: bool)
    requires
        lo <= hi <= cs.len(),
    ensures
        r == all_digits(cs@.subrange(lo as int, hi as int)),
{
    let mut i = lo;
    while i < hi
        invariant
            lo <= i <= hi,
            hi <= cs.len(),
            forall|m: int| lo <= m < i ==> is_digit(#[trigger] cs@[m]),
        decreases hi - i,
    {
        if !(cs[i] >= '0' && cs[i] <= '9') {
            assert(cs@.subrange(lo as int, hi as int)[i - lo] == cs@[i as int]);
            return false;
        }
        i += 1;
    }
    assert forall|m: int| 0 <= m < hi - lo implies is_digit(
        #[trigger] cs@.subrange(lo as int, hi as int)[m],
    ) by {
        assert(cs@.subrange(lo as int, hi as int)[m] == cs@[lo + m]);
    }
    true
}

fn mantissa_between(cs: &Vec<char>, lo: usize, hi: usize) -> (r: bool)
    requires
        lo <= hi <= cs.len(),
    ensures
        r == is_mantissa(cs@.subrange(lo as int, hi as int)),
{
    let ghost m = cs@.subrange(lo as int, hi as int);
    let mut p = lo;
    while p < hi && cs[p] >= '0' && cs[p] <= '9'
        invariant
            lo <= p <= hi,
            hi <= cs.len(),
            forall|i: int| lo <= i < p ==> is_digit(#[trigger] cs@[i]),
        decreases hi - p,
    {
        p += 1;
    }
    assert forall|i: int| 0 <= i < p - lo implies is_digit(#[trigger] m[i]) by {
        assert(m[i] == cs@[lo + i]);
    }
    if p == hi {
        assert(all_digits(m));
        return hi > lo;
    }
    let d = p - lo;
    assert(m[d as int] == cs@[p as int]);
    if cs[p] != '.' {
        assert(!all_digits(m));
        assert forall|e: int|
            0 <= e < m.len() && m.len() > 1 && #[trigger] m[e] == '.' implies !all_digits(
            m.take(e),
        ) by {
            assert(e > d);
            assert(m.take(e)[d as int] == m[d as int]);
        }
        return false;
    }
    let rest_ok = digits_between(cs, p + 1, hi);
    assert(m.take(d as int) =~= cs@.subrange(lo as int, p as int));
    assert(m.skip(d + 1) =~= cs@.subrange(p + 1, hi as int));
    assert(all_digits(m.take(d as int)));
    assert(!all_digits(m));
    assert forall|e: int|
        0 <= e < m.len() && m.len() > 1 && #[trigger] m[e] == '.' && e != d implies !all_digits(
        m.take(e),
    ) by {
        assert(e > d);
        assert(m.take(e)[d as int] == m[d as int]);
    }
    hi - lo > 1 && rest_ok
}

/// Whether the characters write a decimal literal.
#[verifier::rlimit(40)]
pub(crate) fn is_number_literal(cs: &Vec<char>) -> (r: bool)
    ensures
        r == is_number_text(cs@),
{
    let n = cs.len();
    let lo: usize = if n > 0 && (cs[0] == '+' || cs[0] == '-') {
        1
    } else {
        0
    };
    let ghost b = cs@.subrange(lo as int, n as int);
    assert(unsigned_part(cs@) =~= b);
    let mut j = lo;
    while j < n && cs[j] != 'e' && cs[j] != 'E'
        invariant
            lo <= j <= n,
            n == cs.len(),
            forall|i: int| lo <= i < j ==> cs@[i] != 'e' && cs@[i] != 'E',
        decreases n - j,
    {
        j += 1;
    }
    let k = j - lo;
    let m_ok = mantissa_between(cs, lo, j);
    assert(b.take(k as int) =~= cs@.subrange(lo as int, j as int));
    // An exponent starts at the first marker and no other place.
    assert forall|kk: int|
        0 < kk < b.len() && kk != k && #[trigger] is_exponent(b.skip(kk)) implies !is_mantissa(
        b.take(kk),
    ) by {
        assert(b.skip(kk)[0] == b[kk]);
        assert(b[kk] == cs@[lo + kk]);
        if kk > k {
            assert(b.take(kk)[k as int] == b[k as int]);
            if is_mantissa(b.take(kk)) {
                lemma_mantissa_chars(b.take(kk));
            }
        }
    }
    if j == n {
        assert(b.take(k as int) =~= b);
        assert forall|kk: int| 0 < kk < b.len() implies !#[trigger] is_exponent(b.skip(kk)) by {
            assert(b.skip(kk)[0] == b[kk]);
            assert(b[kk] == cs@[lo + kk]);
        }
        return m_ok;
    }
    assert(b[k as int] == cs@[j as int]);
    proof {
        if is_mantissa(b) {
            lemma_mantissa_chars(b);
        }
    }
    if !m_ok || j + 1 >= n {
        return false;
    }
    let ghost x = b.skip(k as int);
    assert(x =~= cs@.subrange(j as int, n as int));
    assert(x.skip(1) =~= cs@.subrange(j + 1, n as int));
    assert(x[0] == cs@[j as int]);
    assert(x.skip(1)[0] == cs@[j + 1]);
    let e_ok = if cs[j + 1] == '+' || cs[j + 1] == '-' {
        if j + 2 >= n {
            false
        } else {
            assert(x.skip(1).skip(1) =~= cs@.subrange(j + 2, n as int));
            digits_between(cs, j + 2, n)
        }
    } else {
        digits_between(cs, j + 1, n)
    };
    assert(is_exponent(x) == e_ok);
    assert(0 < k < b.len());
    e_ok
}

impl Value {
    /// The member of an object stored under `key`; `None` for a missing key
    /// or a value that is no object.
    pub fn get(&self, key: &str) -> (r: Option<&Value>)
        ensures
            match self@ {
                Json::Object(es) => match entries_get(es, key@) {
                    Some(v) => r matches Some(x) && x@ == v,
                    None => r is None,
                },
                _ => r is None,
            },
    {
        match self {
            Value::Object(o) => o.get(key),
            _ => None,
        }
    }

    /// The element of an array at position `i`; `None` past its end or for
    /// a value that is no array.
    pub fn at(&self, i: usize) -> (r: Option<&Value>)
        ensures
            match self@ {
                Json::Array(items) => if i < items.len() {
                    r matches Some(x) && x@ == items[i as int]
                } else {
                    r is None
                },
                _ => r is None,
            },
    {
        match self {
            Value::Array(vs) => {
                proof {
                    lemma_values_view(vs@, vs@.len());
                }
                if i < vs.len() {
                    Some(&vs[i])
                } else {
                    None
                }
            },
            _ => None,
        }
    }
}

impl Clone for Value {
    fn clone(&self) -> (r: Value)
        ensures
            r@ == self@,
        decreases self@,
    {
        match self {
            Value::String(s) => Value::String(s.clone()),
            Value::Number(n) => Value::Number(n.duplicate()),
            Value::Bool(b) => Value::Bool(*b),
            Value::Null => Value::Null,
            Value::Array(vs) => {
                let ghost items = values_view(vs@, vs@.len());
                proof {
                    lemma_values_view(vs@, vs@.len());
                    assert forall|m: int| 0 <= m < vs@.len() implies decreases_to!(self@ => #[trigger] vs@[m]@) by {
                        assert(decreases_to!(self@ => self@->Array_0));
                        assert(decreases_to!(items => items[m]));
                    }
                }
                let mut out: Vec<Value> = Vec::new();
                let mut i: usize = 0;
                while i < vs.len()
                    invariant
                        i <= vs@.len(),
                        out@.len() == i,
                        forall|m: int| 0 <= m < i ==> #[trigger] out@[m]@ == vs@[m]@,
                        forall|m: int| 0 <= m < vs@.len() ==> decreases_to!(self@ => #[trigger] vs@[m]@),
                    decreases vs@.len() - i,
                {
                    let c = vs[i].clone();
                    out.push(c);
                    i += 1;
                }
                proof {
                    lemma_values_view(out@, out@.len());
                    assert(values_view(out@, out@.len()) =~= items);
                }
                Value::Array(out)
            },
            Value::Object(o) => {
                let ghost es = o@;
                proof {
                    lemma_entries_view(o.entries@, o.entries@.len());
                    assert forall|m: int| 0 <= m < o.entries@.len() implies decreases_to!(self@ => #[trigger] o.entries@[m].1@) by {
                        assert(decreases_to!(self@ => self@->Object_0));
                        assert(decreases_to!(es => es[m]));
                        assert(decreases_to!(es[m] => es[m].1));
                    }
                }
                let mut out: Vec<(String, Value)> = Vec::new();
                let mut i: usize = 0;
                while i < o.entries.len()
                    invariant
                        i <= o.entries@.len(),
                        out@.len() == i,
                        forall|m: int| 0 <= m < i ==> #[trigger] out@[m].0@ == o.entries@[m].0@ && out@[m].1@ == o.entries@[m].1@,
                        forall|m: int| 0 <= m < o.entries@.len() ==> decreases_to!(self@ => #[trigger] o.entries@[m].1@),
                    decreases o.entries@.len() - i,
                {
                    let e = &o.entries[i];
                    let c = (e.0.clone(), e.1.clone());
                    out.push(c);
                    i += 1;
                }
                proof {
                    lemma_entries_view(out@, out@.len());
                    assert(entries_view(out@, out@.len()) =~= es);
                }
                Value::Object(Object { entries: out })
            },
        }
    }
}

} // verus!
