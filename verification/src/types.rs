//! The value tree a JSON document parses to, and its canonical rendering
//! back to text.
//!
//! The tree is modelled by `JsonValueView`, a purely mathematical mirror
//! over character sequences; every executable type here carries a view
//! into that model, and every method's contract is stated over it.

use vstd::prelude::*;

use crate::numbers;

verus! {

use vstd::string::StringExecFns;

// ---------------------------------------------------------------------------
// The tree
// ---------------------------------------------------------------------------
/// A JSON number: a 64-bit integer, or a float kept as its numeral text.
#[derive(Debug, PartialEq, Eq)]
pub enum JsonNum {
    Int(i64),
    Float(String),
}

/// A JSON value.
#[derive(Debug, PartialEq, Eq)]
pub enum JsonValue {
    String(String),
    Num(JsonNum),
    Bool(bool),
    Null,
    Vec(Vec<JsonValue>),
    Object(JsonObject),
}

/// A JSON object: a mapping from string keys to values. Keys are unique
/// and insertion order is kept, so rendering is deterministic.
#[derive(Debug, PartialEq, Eq)]
pub struct JsonObject {
    entries: Vec<(String, JsonValue)>,
}

/// The mathematical model of a JSON value.
#[verifier::ext_equal]
pub enum JsonValueView {
    Str(Seq<char>),
    Int(i64),
    Float(Seq<char>),
    Bool(bool),
    Null,
    Arr(Seq<JsonValueView>),
    Obj(Seq<(Seq<char>, JsonValueView)>),
}

impl JsonValue {
    /// The model of a value.
    pub closed spec fn vw(self) -> JsonValueView
        decreases self,
    {
        match self {
            JsonValue::String(s) => JsonValueView::Str(s@),
            JsonValue::Num(JsonNum::Int(v)) => JsonValueView::Int(v),
            JsonValue::Num(JsonNum::Float(t)) => JsonValueView::Float(t@),
            JsonValue::Bool(b) => JsonValueView::Bool(b),
            JsonValue::Null => JsonValueView::Null,
            JsonValue::Vec(v) => JsonValueView::Arr(JsonValue::seq_vw(v@)),
            JsonValue::Object(o) => JsonValueView::Obj(JsonValue::pairs_vw(o.entries@)),
        }
    }

    /// The models of a list of values, in order.
    pub closed spec fn seq_vw(s: Seq<JsonValue>) -> Seq<JsonValueView>
        decreases s,
    {
        if s.len() == 0 {
            Seq::empty()
        } else {
            JsonValue::seq_vw(s.drop_last()).push(s.last().vw())
        }
    }

    /// The models of a list of key/value entries, in order.
    pub closed spec fn pairs_vw(s: Seq<(String, JsonValue)>) -> Seq<(Seq<char>, JsonValueView)>
        decreases s,
    {
        if s.len() == 0 {
            Seq::empty()
        } else {
            JsonValue::pairs_vw(s.drop_last()).push((s.last().0@, s.last().1.vw()))
        }
    }
}

impl View for JsonValue {
    type V = JsonValueView;

    closed spec fn view(&self) -> JsonValueView {
        self.vw()
    }
}

impl View for JsonObject {
    type V = Seq<(Seq<char>, JsonValueView)>;

    closed spec fn view(&self) -> Seq<(Seq<char>, JsonValueView)> {
        JsonValue::pairs_vw(self.entries@)
    }
}

// ---------------------------------------------------------------------------
// What the models of the constructors are
// ---------------------------------------------------------------------------
/// How a value models, by constructor: strings and floats as their
/// characters, numbers and booleans as themselves, arrays and objects as
/// the models of their parts.
pub broadcast proof fn lemma_vw_unfold(v: JsonValue)
    ensures
        (#[trigger] v@) == match v {
            JsonValue::String(s) => JsonValueView::Str(s@),
            JsonValue::Num(JsonNum::Int(n)) => JsonValueView::Int(n),
            JsonValue::Num(JsonNum::Float(t)) => JsonValueView::Float(t@),
            JsonValue::Bool(b) => JsonValueView::Bool(b),
            JsonValue::Null => JsonValueView::Null,
            JsonValue::Vec(vec) => JsonValueView::Arr(JsonValue::seq_vw(vec@)),
            JsonValue::Object(o) => JsonValueView::Obj(o@),
        },
{
}

/// The model of a list of values, element by element.
pub broadcast proof fn lemma_seq_vw_len(s: Seq<JsonValue>)
    ensures
        (#[trigger] JsonValue::seq_vw(s)).len() == s.len(),
    decreases s,
{
    if s.len() > 0 {
        lemma_seq_vw_len(s.drop_last());
    }
}

/// Indexing the model of a list of values is modelling the element.
pub broadcast proof fn lemma_seq_vw_index(s: Seq<JsonValue>, i: int)
    requires
        0 <= i < s.len(),
    ensures
        (#[trigger] JsonValue::seq_vw(s)[i]) == s[i]@,
    decreases s,
{
    lemma_seq_vw_len(s);
    if s.len() > 0 {
        if i < s.len() - 1 {
            lemma_seq_vw_index(s.drop_last(), i);
        }
    }
}

/// Modelling a list of values after a push appends the pushed model.
pub broadcast proof fn lemma_seq_vw_push(s: Seq<JsonValue>, v: JsonValue)
    ensures
        (#[trigger] JsonValue::seq_vw(s.push(v))) == JsonValue::seq_vw(s).push(v@),
{
    assert(s.push(v).drop_last() =~= s);
    assert(s.push(v).last() == v);
}

/// The model of an empty list of values is empty.
pub proof fn lemma_seq_vw_empty()
    ensures
        JsonValue::seq_vw(Seq::empty()) == Seq::<JsonValueView>::empty(),
{
}

/// The model of a list of entries, entry by entry.
pub broadcast proof fn lemma_pairs_vw_len(s: Seq<(String, JsonValue)>)
    ensures
        (#[trigger] JsonValue::pairs_vw(s)).len() == s.len(),
    decreases s,
{
    if s.len() > 0 {
        lemma_pairs_vw_len(s.drop_last());
    }
}

/// Indexing the model of a list of entries is modelling the entry.
pub broadcast proof fn lemma_pairs_vw_index(s: Seq<(String, JsonValue)>, i: int)
    requires
        0 <= i < s.len(),
    ensures
        (#[trigger] JsonValue::pairs_vw(s)[i]) == (s[i].0@, s[i].1@),
    decreases s,
{
    lemma_pairs_vw_len(s);
    if s.len() > 0 {
        if i < s.len() - 1 {
            lemma_pairs_vw_index(s.drop_last(), i);
        }
    }
}

/// The broadcast group of the model lemmas above.
pub broadcast group group_value_views {
    lemma_vw_unfold,
    lemma_seq_vw_len,
    lemma_seq_vw_index,
    lemma_seq_vw_push,
    lemma_pairs_vw_len,
    lemma_pairs_vw_index,
}

// ---------------------------------------------------------------------------
// Object operations, specified
// ---------------------------------------------------------------------------
/// The value under the first entry with key `k`, if any.
pub open spec fn lookup_pairs(ps: Seq<(Seq<char>, JsonValueView)>, k: Seq<char>) -> Option<
    JsonValueView,
>
    decreases ps.len(),
{
    if ps.len() == 0 {
        None
    } else if ps[0].0 == k {
        Some(ps[0].1)
    } else {
        lookup_pairs(ps.drop_first(), k)
    }
}

/// Writing `v` under `k`: the first entry with key `k` is replaced in
/// place, or a new entry is appended at the end.
pub open spec fn insert_pair(
    ps: Seq<(Seq<char>, JsonValueView)>,
    k: Seq<char>,
    v: JsonValueView,
) -> Seq<(Seq<char>, JsonValueView)>
    decreases ps.len(),
{
    if ps.len() == 0 {
        seq![(k, v)]
    } else if ps[0].0 == k {
        seq![(k, v)] + ps.drop_first()
    } else {
        seq![ps[0]] + insert_pair(ps.drop_first(), k, v)
    }
}

/// Removing `k`: the first entry with key `k` disappears; without one the
/// entries stay as they are.
pub open spec fn remove_pair(ps: Seq<(Seq<char>, JsonValueView)>, k: Seq<char>) -> Seq<
    (Seq<char>, JsonValueView),
>
    decreases ps.len(),
{
    if ps.len() == 0 {
        ps
    } else if ps[0].0 == k {
        ps.drop_first()
    } else {
        seq![ps[0]] + remove_pair(ps.drop_first(), k)
    }
}

/// With the first match at `m`, looking up finds that entry's value.
pub proof fn lemma_lookup_at(ps: Seq<(Seq<char>, JsonValueView)>, k: Seq<char>, m: int)
    requires
        0 <= m < ps.len(),
        ps[m].0 == k,
        forall|n: int| 0 <= n < m ==> (#[trigger] ps[n]).0 != k,
    ensures
        lookup_pairs(ps, k) == Some(ps[m].1),
    decreases m,
{
    if m > 0 {
        lemma_lookup_at(ps.drop_first(), k, m - 1);
    }
}

/// Without a match, looking up finds nothing.
pub proof fn lemma_lookup_none(ps: Seq<(Seq<char>, JsonValueView)>, k: Seq<char>)
    requires
        forall|n: int| 0 <= n < ps.len() ==> (#[trigger] ps[n]).0 != k,
    ensures
        lookup_pairs(ps, k) is None,
    decreases ps.len(),
{
    if ps.len() > 0 {
        lemma_lookup_none(ps.drop_first(), k);
    }
}

/// With the first match at `m`, writing updates that entry in place.
pub proof fn lemma_insert_at(
    ps: Seq<(Seq<char>, JsonValueView)>,
    k: Seq<char>,
    v: JsonValueView,
    m: int,
)
    requires
        0 <= m < ps.len(),
        ps[m].0 == k,
        forall|n: int| 0 <= n < m ==> (#[trigger] ps[n]).0 != k,
    ensures
        insert_pair(ps, k, v) == ps.update(m, (k, v)),
    decreases m,
{
    if m == 0 {
        assert(seq![(k, v)] + ps.drop_first() =~= ps.update(0, (k, v)));
    } else {
        lemma_insert_at(ps.drop_first(), k, v, m - 1);
        assert(seq![ps[0]] + ps.drop_first().update(m - 1, (k, v)) =~= ps.update(m, (k, v)));
    }
}

/// Without a match, writing appends a new entry.
pub proof fn lemma_insert_none(ps: Seq<(Seq<char>, JsonValueView)>, k: Seq<char>, v: JsonValueView)
    requires
        forall|n: int| 0 <= n < ps.len() ==> (#[trigger] ps[n]).0 != k,
    ensures
        insert_pair(ps, k, v) == ps.push((k, v)),
    decreases ps.len(),
{
    if ps.len() == 0 {
        assert(seq![(k, v)] =~= ps.push((k, v)));
    } else {
        lemma_insert_none(ps.drop_first(), k, v);
        assert(seq![ps[0]] + ps.drop_first().push((k, v)) =~= ps.push((k, v)));
    }
}

/// With the first match at `m`, removing deletes that entry.
pub proof fn lemma_remove_at(ps: Seq<(Seq<char>, JsonValueView)>, k: Seq<char>, m: int)
    requires
        0 <= m < ps.len(),
        ps[m].0 == k,
        forall|n: int| 0 <= n < m ==> (#[trigger] ps[n]).0 != k,
    ensures
        remove_pair(ps, k) == ps.subrange(0, m) + ps.subrange(m + 1, ps.len() as int),
    decreases m,
{
    if m == 0 {
        assert(ps.drop_first() =~= ps.subrange(0, 0) + ps.subrange(1, ps.len() as int));
    } else {
        lemma_remove_at(ps.drop_first(), k, m - 1);
        assert(seq![ps[0]] + (ps.drop_first().subrange(0, m - 1) + ps.drop_first().subrange(
            m,
            ps.len() - 1,
        )) =~= ps.subrange(0, m) + ps.subrange(m + 1, ps.len() as int));
    }
}

/// Without a match, removing changes nothing.
pub proof fn lemma_remove_none(ps: Seq<(Seq<char>, JsonValueView)>, k: Seq<char>)
    requires
        forall|n: int| 0 <= n < ps.len() ==> (#[trigger] ps[n]).0 != k,
    ensures
        remove_pair(ps, k) == ps,
    decreases ps.len(),
{
    if ps.len() > 0 {
        lemma_remove_none(ps.drop_first(), k);
        assert(seq![ps[0]] + ps.drop_first() =~= ps);
    }
}

// ---------------------------------------------------------------------------
// Object operations, executed
// ---------------------------------------------------------------------------
impl JsonObject {
    /// An empty object.
    pub fn new() -> (r: JsonObject)
        ensures
            r@ == Seq::<(Seq<char>, JsonValueView)>::empty(),
    {
        let r = JsonObject { entries: Vec::new() };
        proof {
            assert(r@ =~= Seq::<(Seq<char>, JsonValueView)>::empty());
        }
        r
    }

    /// The position of the first entry with the given key.
    fn find_key(&self, key: &String) -> (r: Option<usize>)
        ensures
            match r {
                Some(m) => {
                    &&& m < self@.len()
                    &&& self@[m as int].0 == key@
                    &&& forall|n: int| 0 <= n < m ==> (#[trigger] self@[n]).0 != key@
                },
                None => forall|n: int| 0 <= n < self@.len() ==> (#[trigger] self@[n]).0 != key@,
            },
    {
        broadcast use group_value_views;

        let mut i: usize = 0;
        while i < self.entries.len()
            invariant
                i <= self.entries@.len(),
                self@.len() == self.entries@.len(),
                forall|n: int| 0 <= n < i ==> (#[trigger] self@[n]).0 != key@,
            decreases self.entries@.len() - i,
        {
            proof {
                assert(self@ == JsonValue::pairs_vw(self.entries@));
                lemma_pairs_vw_index(self.entries@, i as int);
            }
            let e = &self.entries[i];
            if e.0 == *key {
                return Some(i);
            }
            i = i + 1;
        }
        None
    }

    /// Write `value` under `key`: replace the first entry with that key in
    /// place, or append a new entry.
    pub fn insert(&mut self, key: String, value: JsonValue) -> (r: ())
        ensures
            final(self)@ == insert_pair(old(self)@, key@, value@),
    {
        broadcast use group_value_views;

        let ghost vv = value@;
        let ghost psold = self@;
        match self.find_key(&key) {
            Some(m) => {
                let ghost kv = key@;
                self.entries.remove(m);
                self.entries.insert(m, (key, value));
                proof {
                    assert(self@ =~= psold.update(m as int, (kv, vv))) by {
                        assert(self.entries@ =~= old(self).entries@.update(m as int, self.entries@[m as int]));
                        assert(self.entries@[m as int].0@ == kv);
                        assert(self.entries@[m as int].1@ == vv);
                    }
                    lemma_insert_at(psold, kv, vv, m as int);
                }
            },
            None => {
                let ghost kv = key@;
                self.entries.push((key, value));
                proof {
                    assert(self@ =~= psold.push((kv, vv))) by {
                        assert(self.entries@.drop_last() =~= old(self).entries@);
                    }
                    lemma_insert_none(psold, kv, vv);
                }
            },
        }
    }

    /// The value under `key`, if any.
    pub fn get_value(&self, key: &str) -> (r: Option<&JsonValue>)
        ensures
            match lookup_pairs(self@, key@) {
                Some(v) => r matches Some(val) && val@ == v,
                None => r is None,
            },
    {
        broadcast use group_value_views;

        let k = key.to_owned();
        match self.find_key(&k) {
            Some(m) => {
                proof {
                    lemma_lookup_at(self@, key@, m as int);
                }
                let e = &self.entries[m];
                Some(&e.1)
            },
            None => {
                proof {
                    lemma_lookup_none(self@, key@);
                }
                None
            },
        }
    }

    /// The string under `key`, if any; the key must not hold a value of
    /// another kind.
    pub fn get_string_value(&self, key: &str) -> (r: Option<&String>)
        requires
            match lookup_pairs(self@, key@) {
                Some(v) => v is Str,
                None => true,
            },
        ensures
            match lookup_pairs(self@, key@) {
                Some(v) => r matches Some(s) && v == JsonValueView::Str(s@),
                None => r is None,
            },
    {
        match self.get_value(key) {
            None => None,
            Some(val) => match val {
                JsonValue::String(s) => Some(s),
                _ => {
                    // the contract rules every other value kind out
                    proof {
                        assert(false);
                    }
                    None
                },
            },
        }
    }

    /// The keys, in entry order.
    pub fn get_keys(&self) -> (r: Vec<&String>)
        ensures
            r@.len() == self@.len(),
            forall|i: int| 0 <= i < r@.len() ==> (#[trigger] r@[i])@ == self@[i].0,
    {
        broadcast use group_value_views;

        let mut keys: Vec<&String> = Vec::new();
        let mut i: usize = 0;
        while i < self.entries.len()
            invariant
                i <= self.entries@.len(),
                self@.len() == self.entries@.len(),
                keys@.len() == i,
                forall|n: int| 0 <= n < i ==> (#[trigger] keys@[n])@ == self@[n].0,
            decreases self.entries@.len() - i,
        {
            proof {
                assert(self@ == JsonValue::pairs_vw(self.entries@));
                lemma_pairs_vw_index(self.entries@, i as int);
            }
            let e = &self.entries[i];
            keys.push(&e.0);
            i = i + 1;
        }
        keys
    }

    /// Remove the first entry with the given key, if any.
    pub fn delete_key(&mut self, key: &str) -> (r: ())
        ensures
            final(self)@ == remove_pair(old(self)@, key@),
    {
        broadcast use group_value_views;

        let ghost psold = self@;
        let k = key.to_owned();
        match self.find_key(&k) {
            Some(m) => {
                self.entries.remove(m);
                proof {
                    assert(self@ =~= psold.subrange(0, m as int) + psold.subrange(
                        m + 1,
                        psold.len() as int,
                    )) by {
                        assert(self.entries@ =~= old(self).entries@.remove(m as int));
                    }
                    lemma_remove_at(psold, key@, m as int);
                }
            },
            None => {
                proof {
                    lemma_remove_none(psold, key@);
                }
            },
        }
    }

    /// Drop every entry.
    pub fn empty(&mut self) -> (r: ())
        ensures
            final(self)@ == Seq::<(Seq<char>, JsonValueView)>::empty(),
    {
        self.entries.clear();
        proof {
            assert(self@ =~= Seq::<(Seq<char>, JsonValueView)>::empty());
        }
    }

    /// The entries themselves, in order.
    pub fn to_iter(&self) -> (r: &Vec<(String, JsonValue)>)
        ensures
            r@.len() == self@.len(),
            forall|i: int|
                0 <= i < r@.len() ==> (#[trigger] r@[i]).0@ == self@[i].0 && r@[i].1@
                    == self@[i].1,
    {
        broadcast use group_value_views;

        &self.entries
    }
}

// ---------------------------------------------------------------------------
// Rendering, specified
// ---------------------------------------------------------------------------
/// The canonical text of a value: strings in quotes, integers in decimal,
/// floats as their kept numeral text, `true`/`false`/`null` as words,
/// arrays bracketed with comma-space-joined elements, objects braced with
/// comma-joined `"key": value` pairs in entry order.
pub open spec fn render_val_spec(v: JsonValueView) -> Seq<char>
    decreases v, 1int,
{
    match v {
        JsonValueView::Str(s) => seq!['"'] + s + seq!['"'],
        JsonValueView::Int(n) => numbers::int_text(n as int),
        JsonValueView::Float(t) => t,
        JsonValueView::Bool(b) => if b {
            seq!['t', 'r', 'u', 'e']
        } else {
            seq!['f', 'a', 'l', 's', 'e']
        },
        JsonValueView::Null => seq!['n', 'u', 'l', 'l'],
        JsonValueView::Arr(es) => seq!['['] + render_elems(es) + seq![']'],
        JsonValueView::Obj(ps) => render_obj_spec(ps),
    }
}

/// Array elements, joined by a comma and a space.
pub open spec fn render_elems(es: Seq<JsonValueView>) -> Seq<char>
    decreases es, 0int,
{
    if es.len() == 0 {
        Seq::empty()
    } else if es.len() == 1 {
        render_val_spec(es[0])
    } else {
        render_elems(es.drop_last()) + seq![',', ' '] + render_val_spec(es.last())
    }
}

/// One object entry: the quoted key, a colon and a space, the value.
pub open spec fn render_pair(p: (Seq<char>, JsonValueView)) -> Seq<char>
    decreases p, 0int,
{
    seq!['"'] + p.0 + seq!['"', ':', ' '] + render_val_spec(p.1)
}

/// Object entries, joined by a comma.
pub open spec fn render_pairs(ps: Seq<(Seq<char>, JsonValueView)>) -> Seq<char>
    decreases ps, 0int,
{
    if ps.len() == 0 {
        Seq::empty()
    } else if ps.len() == 1 {
        render_pair(ps[0])
    } else {
        render_pairs(ps.drop_last()) + seq![','] + render_pair(ps.last())
    }
}

/// The canonical text of an object.
pub open spec fn render_obj_spec(ps: Seq<(Seq<char>, JsonValueView)>) -> Seq<char>
    decreases ps, 1int,
{
    seq!['{'] + render_pairs(ps) + seq!['}']
}

/// One more element extends the joined elements by a separator (past the
/// first element) and the element's text.
proof fn lemma_render_elems_step(es: Seq<JsonValueView>, i: int)
    requires
        0 <= i < es.len(),
    ensures
        render_elems(es.take(i + 1)) == if i == 0 {
            render_val_spec(es[0])
        } else {
            render_elems(es.take(i)) + seq![',', ' '] + render_val_spec(es[i])
        },
{
    assert(es.take(i + 1).drop_last() =~= es.take(i));
    assert(es.take(i + 1).last() == es[i]);
    if i == 0 {
        assert(es.take(1)[0] == es[0]);
    }
}

/// One more entry extends the joined entries by a comma (past the first
/// entry) and the entry's text.
proof fn lemma_render_pairs_step(ps: Seq<(Seq<char>, JsonValueView)>, i: int)
    requires
        0 <= i < ps.len(),
    ensures
        render_pairs(ps.take(i + 1)) == if i == 0 {
            render_pair(ps[0])
        } else {
            render_pairs(ps.take(i)) + seq![','] + render_pair(ps[i])
        },
{
    assert(ps.take(i + 1).drop_last() =~= ps.take(i));
    assert(ps.take(i + 1).last() == ps[i]);
    if i == 0 {
        assert(ps.take(1)[0] == ps[0]);
    }
}

// ---------------------------------------------------------------------------
// Rendering, executed
// ---------------------------------------------------------------------------
impl JsonValue {
    /// The canonical text of this value.
    pub fn render(&self) -> (r: String)
        ensures
            r@ == render_val_spec(self@),
        decreases self, 1int,
    {
        broadcast use group_value_views;

        match self {
            JsonValue::String(s) => {
                let mut out = String::new();
                out.push('"');
                out.append(s.as_str());
                out.push('"');
                proof {
                    assert(out@ =~= seq!['"'] + s@ + seq!['"']);
                }
                out
            },
            JsonValue::Num(JsonNum::Int(v)) => numbers::render_i64(*v),
            JsonValue::Num(JsonNum::Float(t)) => t.clone(),
            JsonValue::Bool(b) => {
                if *b {
                    let out = "true".to_owned();
                    proof {
                        reveal_strlit("true");
                        assert(out@ =~= seq!['t', 'r', 'u', 'e']);
                    }
                    out
                } else {
                    let out = "false".to_owned();
                    proof {
                        reveal_strlit("false");
                        assert(out@ =~= seq!['f', 'a', 'l', 's', 'e']);
                    }
                    out
                }
            },
            JsonValue::Null => {
                let out = "null".to_owned();
                proof {
                    reveal_strlit("null");
                    assert(out@ =~= seq!['n', 'u', 'l', 'l']);
                }
                out
            },
            JsonValue::Vec(v) => {
                let ghost es = JsonValue::seq_vw(v@);
                let mut out = String::new();
                out.push('[');
                proof {
                    assert(out@ =~= seq!['['] + render_elems(es.take(0)));
                }
                let mut idx: usize = 0;
                while idx < v.len()
                    invariant
                        idx <= v@.len(),
                        es == JsonValue::seq_vw(v@),
                        es.len() == v@.len(),
                        forall|n: int| 0 <= n < es.len() ==> es[n] == #[trigger] v@[n]@,
                        *self == JsonValue::Vec(*v),
                        out@ == seq!['['] + render_elems(es.take(idx as int)),
                    decreases v@.len() - idx,
                {
                    if idx > 0 {
                        out.push(',');
                        out.push(' ');
                    }
                    proof {
                        assert((*self)->Vec_0 == *v);
                        assert(decreases_to!(*self => (*self)->Vec_0));
                        assert(decreases_to!(*v => v@));
                        assert(decreases_to!(v@ => v@[idx as int]));
                    }
                    let piece = v[idx].render();
                    out.append(piece.as_str());
                    proof {
                        lemma_render_elems_step(es, idx as int);
                        assert(out@ =~= seq!['['] + render_elems(es.take(idx + 1)));
                    }
                    idx = idx + 1;
                }
                out.push(']');
                proof {
                    assert(es.take(es.len() as int) =~= es);
                    assert(out@ =~= seq!['['] + render_elems(es) + seq![']']);
                }
                out
            },
            JsonValue::Object(o) => o.render(),
        }
    }
}

impl JsonObject {
    /// The canonical text of this object.
    pub fn render(&self) -> (r: String)
        ensures
            r@ == render_obj_spec(self@),
        decreases self, 0int,
    {
        broadcast use group_value_views;

        let ghost ps = self@;
        let mut out = String::new();
        out.push('{');
        proof {
            assert(out@ =~= seq!['{'] + render_pairs(ps.take(0)));
        }
        let mut idx: usize = 0;
        while idx < self.entries.len()
            invariant
                idx <= self.entries@.len(),
                ps == self@,
                ps.len() == self.entries@.len(),
                out@ == seq!['{'] + render_pairs(ps.take(idx as int)),
            decreases self.entries@.len() - idx,
        {
            if idx > 0 {
                out.push(',');
            }
            proof {
                lemma_pairs_vw_index(self.entries@, idx as int);
            }
            let e = &self.entries[idx];
            out.push('"');
            out.append(e.0.as_str());
            out.push('"');
            out.push(':');
            out.push(' ');
            proof {
                assert(decreases_to!(*self => self.entries));
                assert(decreases_to!(self.entries => self.entries@));
                assert(decreases_to!(self.entries@ => self.entries@[idx as int]));
                assert(decreases_to!(self.entries@[idx as int] => self.entries@[idx as int].1));
            }
            let piece = e.1.render();
            out.append(piece.as_str());
            proof {
                lemma_render_pairs_step(ps, idx as int);
                assert(out@ =~= seq!['{'] + render_pairs(ps.take(idx + 1)));
            }
            idx = idx + 1;
        }
        out.push('}');
        proof {
            assert(ps.take(ps.len() as int) =~= ps);
            assert(out@ =~= render_obj_spec(ps));
        }
        out
    }
}

} // verus!
