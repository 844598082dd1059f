//! A document store: JSON documents under (partition, collection, id) keys,
//! rebuilt on open by replaying its commit log, and queried by collection and by
//! the value of a top-level field.
use vstd::prelude::*;

verus! {

/// A JSON number, as serde_json keeps it: a non-negative integer, a negative
/// integer, or a finite double (held here by its IEEE-754 bits).
#[derive(Debug, Clone, Copy, PartialEq, Eq, Structural)]
pub enum JsonNumber {
    PosInt(u64),
    NegInt(i64),
    Float(u64),
}

/// A JSON value. A value read from serde_json is canonical (`json_canonical`):
/// object members come in the order serde_json's map keeps them, ascending by name,
/// each name once; a negative integer is `NegInt`, any other integer `PosInt`; a
/// double is finite. On canonical values `json_same` is serde_json's `==`.
#[derive(Debug)]
pub enum JsonValue {
    Null,
    Bool(bool),
    Number(JsonNumber),
    String(String),
    Array(Vec<JsonValue>),
    Object(Vec<(String, JsonValue)>),
}

/// The mathematical JSON value that a `JsonValue` stands for.
pub enum Json {
    Null,
    Bool(bool),
    Number(JsonNumber),
    Str(Seq<char>),
    Array(Seq<Json>),
    Object(Seq<(Seq<char>, Json)>),
}

/// Clears the sign bit of a double's bits.
pub open spec fn magnitude_bits(b: u64) -> u64 {
    b & 0x7fff_ffff_ffff_ffffu64
}

/// A number as compared: doubles are equal when `==` on `f64` says so, so the
/// two zeros are one.
pub open spec fn number_view(n: JsonNumber) -> JsonNumber {
    match n {
        JsonNumber::Float(b) => if magnitude_bits(b) == 0 {
            JsonNumber::Float(0)
        } else {
            JsonNumber::Float(b)
        },
        _ => n,
    }
}

/// The value `j` as serde_json's `==` sees it: the two zeros of a double are one.
pub open spec fn same_zero(j: Json) -> Json
    decreases j,
{
    match j {
        Json::Number(n) => Json::Number(number_view(n)),
        Json::Array(items) => Json::Array(
            Seq::new(
                items.len(),
                |i: int|
                    if 0 <= i < items.len() {
                        same_zero(items[i])
                    } else {
                        Json::Null
                    },
            ),
        ),
        Json::Object(fields) => Json::Object(
            Seq::new(
                fields.len(),
                |i: int|
                    if 0 <= i < fields.len() {
                        (fields[i].0, same_zero(fields[i].1))
                    } else {
                        (Seq::empty(), Json::Null)
                    },
            ),
        ),
        _ => j,
    }
}

/// `a` precedes `b` in the order of their characters' code points (the order of
/// `String`, and so of the member names of serde_json's map).
pub open spec fn chars_lt_from(a: Seq<char>, b: Seq<char>, i: nat) -> bool
    decreases a.len() - i,
{
    if i >= a.len() {
        i < b.len()
    } else if i >= b.len() {
        false
    } else if (a[i as int] as u32) < (b[i as int] as u32) {
        true
    } else if (a[i as int] as u32) > (b[i as int] as u32) {
        false
    } else {
        chars_lt_from(a, b, i + 1)
    }
}

/// The bits of a double stand for a finite number.
pub open spec fn finite_bits(b: u64) -> bool {
    (b >> 52u64) & 0x7ffu64 != 0x7ffu64
}

/// A number as serde_json can hold it: a negative integer is negative (others are
/// held as non-negative ones), and a double is finite.
pub open spec fn number_canonical(n: JsonNumber) -> bool {
    match n {
        JsonNumber::PosInt(_) => true,
        JsonNumber::NegInt(i) => i < 0,
        JsonNumber::Float(b) => finite_bits(b),
    }
}

/// A value as serde_json can hold it: its numbers are canonical, and the members of
/// each object come in ascending name order, each name once.
pub open spec fn json_canonical(j: Json) -> bool
    decreases j,
{
    match j {
        Json::Number(n) => number_canonical(n),
        Json::Array(items) => forall|i: int| 0 <= i < items.len() ==> json_canonical(#[trigger] items[i]),
        Json::Object(fields) => {
            &&& forall|i: int, k: int|
                0 <= i < k < fields.len() ==> chars_lt_from(#[trigger] fields[i].0, #[trigger] fields[k].0, 0)
            &&& forall|i: int| 0 <= i < fields.len() ==> json_canonical(#[trigger] fields[i].1)
        },
        _ => true,
    }
}

/// `a` and `b` are equal as serde_json's `==` on `Value` compares them.
pub open spec fn json_same(a: Json, b: Json) -> bool {
    same_zero(a) == same_zero(b)
}

impl JsonValue {
    /// The value this stands for.
    pub open spec fn deep(self) -> Json
        decreases self,
    {
        match self {
            JsonValue::Null => Json::Null,
            JsonValue::Bool(b) => Json::Bool(b),
            JsonValue::Number(n) => Json::Number(n),
            JsonValue::String(s) => Json::Str(s@),
            JsonValue::Array(items) => Json::Array(
                Seq::new(
                    items.len() as nat,
                    |i: int|
                        if 0 <= i < items.len() {
                            items[i].deep()
                        } else {
                            Json::Null
                        },
                ),
            ),
            JsonValue::Object(fields) => Json::Object(
                Seq::new(
                    fields.len() as nat,
                    |i: int|
                        if 0 <= i < fields.len() {
                            (fields[i].0@, fields[i].1.deep())
                        } else {
                            (Seq::empty(), Json::Null)
                        },
                ),
            ),
        }
    }
}

/// The value of the first member named `name`, if any.
pub open spec fn member_lookup(fields: Seq<(Seq<char>, Json)>, name: Seq<char>) -> Option<Json>
    decreases fields.len(),
{
    if fields.len() == 0 {
        None
    } else if fields[0].0 == name {
        Some(fields[0].1)
    } else {
        member_lookup(fields.drop_first(), name)
    }
}

/// The member `name` of `v` is there and equals `expected` as serde_json compares
/// values.
pub open spec fn member_matches(v: Json, name: Seq<char>, expected: Json) -> bool {
    match json_get(v, name) {
        Some(x) => json_same(x, expected),
        None => false,
    }
}

/// What serde_json's `Value::get` with a member name gives: the member of an
/// object, and nothing for any other value.
pub open spec fn json_get(v: Json, name: Seq<char>) -> Option<Json> {
    match v {
        Json::Object(fields) => member_lookup(fields, name),
        _ => None,
    }
}

/// Compares two numbers as serde_json does.
pub fn number_equal(a: JsonNumber, b: JsonNumber) -> (r: bool)
    requires
        number_canonical(a),
        number_canonical(b),
    ensures
        r == (number_view(a) == number_view(b)),
{
    match (a, b) {
        (JsonNumber::PosInt(x), JsonNumber::PosInt(y)) => x == y,
        (JsonNumber::NegInt(x), JsonNumber::NegInt(y)) => x == y,
        (JsonNumber::Float(x), JsonNumber::Float(y)) => {
            let mask: u64 = 0x7fff_ffff_ffff_ffff;
            proof {
                assert(0u64 & 0x7fff_ffff_ffff_ffffu64 == 0u64) by (bit_vector);
            }
            x == y || (x & mask == 0 && y & mask == 0)
        },
        (JsonNumber::PosInt(_), _) => false,
        (JsonNumber::NegInt(_), _) => false,
        (JsonNumber::Float(_), _) => false,
    }
}

/// Compares two JSON values as serde_json's `==` on `Value` does.
pub fn json_equal(a: &JsonValue, b: &JsonValue) -> (r: bool)
    requires
        json_canonical(a.deep()),
        json_canonical(b.deep()),
    ensures
        r == json_same(a.deep(), b.deep()),
    decreases a,
{
    match a {
        JsonValue::Null => match b {
            JsonValue::Null => true,
            _ => false,
        },
        JsonValue::Bool(x) => match b {
            JsonValue::Bool(y) => *x == *y,
            _ => false,
        },
        JsonValue::Number(x) => match b {
            JsonValue::Number(y) => {
                assert(a.deep() == Json::Number(*x));
                assert(b.deep() == Json::Number(*y));
                number_equal(*x, *y)
            },
            _ => false,
        },
        JsonValue::String(x) => match b {
            JsonValue::String(y) => *x == *y,
            _ => false,
        },
        JsonValue::Array(xs) => match b {
            JsonValue::Array(ys) => {
                if xs.len() != ys.len() {
                    assert(same_zero(a.deep())->Array_0.len() != same_zero(b.deep())->Array_0.len());
                    return false;
                }
                let mut i: usize = 0;
                while i < xs.len()
                    invariant
                        i <= xs.len(),
                        xs.len() == ys.len(),
                        *a == JsonValue::Array(*xs),
                        *b == JsonValue::Array(*ys),
                        json_canonical(a.deep()),
                        json_canonical(b.deep()),
                        forall|j: int| 0 <= j < i ==> json_same((#[trigger] xs@[j]).deep(), ys@[j].deep()),
                    decreases xs.len() - i,
                {
                    assert(decreases_to!(*a => a->Array_0));
                    assert(decreases_to!(a->Array_0 => a->Array_0@));
                    assert(decreases_to!(a->Array_0@ => a->Array_0@[i as int]));
                    assert(a.deep()->Array_0[i as int] == xs@[i as int].deep());
                    assert(b.deep()->Array_0[i as int] == ys@[i as int].deep());
                    if !json_equal(&xs[i], &ys[i]) {
                        assert(same_zero(a.deep())->Array_0[i as int] != same_zero(b.deep())->Array_0[i as int]);
                        return false;
                    }
                    i = i + 1;
                }
                assert(same_zero(a.deep())->Array_0 =~= same_zero(b.deep())->Array_0);
                true
            },
            _ => false,
        },
        JsonValue::Object(xs) => match b {
            JsonValue::Object(ys) => {
                if xs.len() != ys.len() {
                    assert(same_zero(a.deep())->Object_0.len() != same_zero(b.deep())->Object_0.len());
                    return false;
                }
                let mut i: usize = 0;
                while i < xs.len()
                    invariant
                        i <= xs.len(),
                        xs.len() == ys.len(),
                        *a == JsonValue::Object(*xs),
                        *b == JsonValue::Object(*ys),
                        json_canonical(a.deep()),
                        json_canonical(b.deep()),
                        forall|j: int|
                            0 <= j < i ==> (#[trigger] xs@[j]).0@ == ys@[j].0@ && json_same(xs@[j].1.deep(),
                                ys@[j].1.deep()),
                    decreases xs.len() - i,
                {
                    if xs[i].0 != ys[i].0 {
                        assert(same_zero(a.deep())->Object_0[i as int] != same_zero(b.deep())->Object_0[i as int]);
                        return false;
                    }
                    assert(decreases_to!(*a => a->Object_0));
                    assert(decreases_to!(a->Object_0 => a->Object_0@));
                    assert(decreases_to!(a->Object_0@ => a->Object_0@[i as int]));
                    assert(decreases_to!(a->Object_0@[i as int] => a->Object_0@[i as int].1));
                    assert(a.deep()->Object_0[i as int].1 == xs@[i as int].1.deep());
                    assert(b.deep()->Object_0[i as int].1 == ys@[i as int].1.deep());
                    if !json_equal(&xs[i].1, &ys[i].1) {
                        assert(same_zero(a.deep())->Object_0[i as int] != same_zero(b.deep())->Object_0[i as int]);
                        return false;
                    }
                    i = i + 1;
                }
                assert(same_zero(a.deep())->Object_0 =~= same_zero(b.deep())->Object_0);
                true
            },
            _ => false,
        },
    }
}

/// A copy of a JSON value.
pub fn clone_json(v: &JsonValue) -> (r: JsonValue)
    ensures
        r.deep() == v.deep(),
    decreases v,
{
    match v {
        JsonValue::Null => JsonValue::Null,
        JsonValue::Bool(x) => JsonValue::Bool(*x),
        JsonValue::Number(n) => JsonValue::Number(*n),
        JsonValue::String(s) => JsonValue::String(s.clone()),
        JsonValue::Array(xs) => {
            let mut out: Vec<JsonValue> = Vec::new();
            let mut i: usize = 0;
            while i < xs.len()
                invariant
                    i <= xs.len(),
                    out.len() == i,
                    *v == JsonValue::Array(*xs),
                    forall|j: int| 0 <= j < i ==> (#[trigger] out@[j]).deep() == xs@[j].deep(),
                decreases xs.len() - i,
            {
                assert(decreases_to!(*v => v->Array_0));
                assert(decreases_to!(v->Array_0 => v->Array_0@));
                assert(decreases_to!(v->Array_0@ => v->Array_0@[i as int]));
                let c = clone_json(&xs[i]);
                out.push(c);
                i = i + 1;
            }
            let r = JsonValue::Array(out);
            assert(r.deep()->Array_0 =~= v.deep()->Array_0);
            r
        },
        JsonValue::Object(xs) => {
            let mut out: Vec<(String, JsonValue)> = Vec::new();
            let mut i: usize = 0;
            while i < xs.len()
                invariant
                    i <= xs.len(),
                    out.len() == i,
                    *v == JsonValue::Object(*xs),
                    forall|j: int|
                        0 <= j < i ==> (#[trigger] out@[j]).0@ == xs@[j].0@ && out@[j].1.deep()
                            == xs@[j].1.deep(),
                decreases xs.len() - i,
            {
                assert(decreases_to!(*v => v->Object_0));
                assert(decreases_to!(v->Object_0 => v->Object_0@));
                assert(decreases_to!(v->Object_0@ => v->Object_0@[i as int]));
                assert(decreases_to!(v->Object_0@[i as int] => v->Object_0@[i as int].1));
                let c = clone_json(&xs[i].1);
                out.push((xs[i].0.clone(), c));
                i = i + 1;
            }
            let r = JsonValue::Object(out);
            assert(r.deep()->Object_0 =~= v.deep()->Object_0);
            r
        },
    }
}

impl JsonValue {
    /// The member named `name` of an object; nothing for any other value.
    pub fn get(&self, name: &str) -> (r: Option<&JsonValue>)
        requires
            json_canonical(self.deep()),
        ensures
            match r {
                Some(x) => json_get(self.deep(), name@) == Some(x.deep()) && json_canonical(x.deep()),
                None => json_get(self.deep(), name@) is None,
            },
    {
        match self {
            JsonValue::Object(fields) => {
                let wanted = name.to_owned();
                let ghost all = self.deep()->Object_0;
                assert(all.subrange(0, all.len() as int) =~= all);
                let mut i: usize = 0;
                while i < fields.len()
                    invariant
                        i <= fields.len(),
                        wanted@ == name@,
                        *self == JsonValue::Object(*fields),
                        all == self.deep()->Object_0,
                        all.len() == fields.len(),
                        member_lookup(all, name@) == member_lookup(all.subrange(i as int, all.len() as int), name@),
                        json_canonical(self.deep()),
                    decreases fields.len() - i,
                {
                    let ghost rest = all.subrange(i as int, all.len() as int);
                    assert(rest[0] == all[i as int]);
                    assert(rest.drop_first() =~= all.subrange(i + 1, all.len() as int));
                    if fields[i].0 == wanted {
                        assert(all[i as int].1 == fields@[i as int].1.deep());
                        return Some(&fields[i].1);
                    }
                    i = i + 1;
                }
                None
            },
            _ => None,
        }
    }
}

/// The key of a document: its partition, its collection and its id.
#[derive(Debug)]
pub struct DocumentKey {
    pub partition_key: String,
    pub collection: String,
    pub id: String,
}

impl View for DocumentKey {
    type V = (Seq<char>, Seq<char>, Seq<char>);

    open spec fn view(&self) -> (Seq<char>, Seq<char>, Seq<char>) {
        (self.partition_key@, self.collection@, self.id@)
    }
}

/// Compares two keys.
pub fn key_equal(a: &DocumentKey, b: &DocumentKey) -> (r: bool)
    ensures
        r == (a@ == b@),
{
    a.partition_key == b.partition_key && a.collection == b.collection && a.id == b.id
}

/// A copy of a key.
pub fn clone_key(k: &DocumentKey) -> (r: DocumentKey)
    ensures
        r@ == k@,
{
    DocumentKey {
        partition_key: k.partition_key.clone(),
        collection: k.collection.clone(),
        id: k.id.clone(),
    }
}

/// One record of the commit log.
#[derive(Debug)]
pub enum LogEntry {
    Add { key: DocumentKey, value: JsonValue },
    Delete { key: DocumentKey },
}

/// The documents of a store, by key.
pub type Documents = Map<(Seq<char>, Seq<char>, Seq<char>), Json>;

/// The documents that the records of `log` add are canonical.
pub open spec fn log_canonical(log: Seq<LogEntry>) -> bool {
    forall|i: int| #![trigger log[i]] 0 <= i < log.len() ==> (log[i] matches LogEntry::Add { value, .. } ==> json_canonical(value.deep()))
}

/// What one log record does to the documents.
pub open spec fn apply_entry(m: Documents, e: LogEntry) -> Documents {
    match e {
        LogEntry::Add { key, value } => m.insert(key@, value.deep()),
        LogEntry::Delete { key } => m.remove(key@),
    }
}

/// The documents that a commit log describes: its records applied in order to
/// an empty store.
pub open spec fn replay(log: Seq<LogEntry>) -> Documents
    decreases log.len(),
{
    if log.len() == 0 {
        Map::empty()
    } else {
        apply_entry(replay(log.drop_last()), log.last())
    }
}

/// A position of `s` whose key is `k`, where there is one.
pub open spec fn doc_index(s: Seq<(DocumentKey, JsonValue)>, k: (Seq<char>, Seq<char>, Seq<char>)) -> int {
    choose|i: int| 0 <= i < s.len() && s[i].0@ == k
}

/// The documents that a sequence of entries with distinct keys holds.
pub open spec fn docs_map(s: Seq<(DocumentKey, JsonValue)>) -> Documents {
    Map::new(
        |k: (Seq<char>, Seq<char>, Seq<char>)| exists|i: int| 0 <= i < s.len() && s[i].0@ == k,
        |k: (Seq<char>, Seq<char>, Seq<char>)| s[doc_index(s, k)].1.deep(),
    )
}

/// Every document of `s` is canonical.
pub open spec fn docs_canonical(s: Seq<(DocumentKey, JsonValue)>) -> bool {
    forall|i: int| 0 <= i < s.len() ==> json_canonical((#[trigger] s[i]).1.deep())
}

/// No two entries of `s` have the same key.
pub open spec fn keys_distinct(s: Seq<(DocumentKey, JsonValue)>) -> bool {
    forall|i: int, j: int| 0 <= i < j < s.len() ==> (#[trigger] s[i]).0@ != (#[trigger] s[j]).0@
}

proof fn lemma_docs_map_at(s: Seq<(DocumentKey, JsonValue)>, i: int)
    requires
        keys_distinct(s),
        0 <= i < s.len(),
    ensures
        docs_map(s).contains_key(s[i].0@),
        docs_map(s)[s[i].0@] == s[i].1.deep(),
{
    let k = s[i].0@;
    assert(0 <= i < s.len() && s[i].0@ == k);
    let j = doc_index(s, k);
    assert(0 <= j < s.len() && s[j].0@ == k);
    if j < i {
        assert(s[j].0@ != s[i].0@);
    } else if j > i {
        assert(s[i].0@ != s[j].0@);
    }
}

proof fn lemma_docs_map_is(s: Seq<(DocumentKey, JsonValue)>, m: Documents)
    requires
        keys_distinct(s),
        forall|i: int| #![trigger s[i]] 0 <= i < s.len() ==> m.contains_key(s[i].0@) && m[s[i].0@] == s[i].1.deep(),
        forall|k: (Seq<char>, Seq<char>, Seq<char>)| #[trigger] m.contains_key(k) ==> exists|i: int|
            0 <= i < s.len() && s[i].0@ == k,
    ensures
        docs_map(s) == m,
{
    assert forall|k: (Seq<char>, Seq<char>, Seq<char>)| #[trigger] docs_map(s).contains_key(k) == m.contains_key(k) by {
        if docs_map(s).contains_key(k) {
            let i = doc_index(s, k);
            assert(s[i].0@ == k);
        }
        if m.contains_key(k) {
            let i = choose|i: int| 0 <= i < s.len() && s[i].0@ == k;
            assert(0 <= i < s.len() && s[i].0@ == k);
        }
    }
    assert forall|k: (Seq<char>, Seq<char>, Seq<char>)| #[trigger] m.contains_key(k) implies docs_map(s)[k] == m[k] by {
        let i = choose|i: int| 0 <= i < s.len() && s[i].0@ == k;
        assert(0 <= i < s.len() && s[i].0@ == k);
        lemma_docs_map_at(s, i);
    }
    assert(docs_map(s) =~= m);
}

/// A document store held in memory; its commit log is written by the caller.
pub struct Database {
    documents: Vec<(DocumentKey, JsonValue)>,
}

impl View for Database {
    type V = Documents;

    closed spec fn view(&self) -> Documents {
        docs_map(self.documents@)
    }
}

impl Database {
    /// The documents with their keys, in the order the store keeps them.
    pub closed spec fn entries(&self) -> Seq<((Seq<char>, Seq<char>, Seq<char>), Json)> {
        self.documents@.map_values(|d: (DocumentKey, JsonValue)| (d.0@, d.1.deep()))
    }

    /// Each key is held once.
    #[verifier::type_invariant]
    closed spec fn wf(&self) -> bool {
        &&& keys_distinct(self.documents@)
        &&& docs_canonical(self.documents@)
    }

    /// The position of `key`, if it is held.
    fn position(&self, key: &DocumentKey) -> (r: Option<usize>)
        ensures
            match r {
                Some(i) => i < self.documents@.len() && self.documents@[i as int].0@ == key@,
                None => forall|i: int| 0 <= i < self.documents@.len() ==> (#[trigger] self.documents@[i]).0@ != key@,
            },
    {
        let mut i: usize = 0;
        while i < self.documents.len()
            invariant
                i <= self.documents@.len(),
                forall|j: int| 0 <= j < i ==> (#[trigger] self.documents@[j]).0@ != key@,
            decreases self.documents.len() - i,
        {
            if key_equal(&self.documents[i].0, key) {
                return Some(i);
            }
            i = i + 1;
        }
        None
    }

    /// Moves the entries out, leaving the store empty.
    fn take_documents(&mut self) -> (r: Vec<(DocumentKey, JsonValue)>)
        ensures
            r@ == old(self).documents@,
            keys_distinct(r@),
            final(self)@ == Documents::empty(),
    {
        proof {
            use_type_invariant(&*self);
        }
        let mut taken = Database { documents: Vec::new() };
        std::mem::swap(&mut taken, self);
        assert(self@ =~= Documents::empty());
        let Database { documents } = taken;
        documents
    }

    /// Stores `value` at `key`, replacing the document there was.
    fn insert(&mut self, key: DocumentKey, value: JsonValue)
        requires
            json_canonical(value.deep()),
        ensures
            final(self)@ == old(self)@.insert(key@, value.deep()),
    {
        proof {
            use_type_invariant(&*self);
        }
        let ghost k = key@;
        let ghost d = value.deep();
        let ghost s = self.documents@;
        let ghost m = self@.insert(k, d);
        let pos = self.position(&key);
        let mut docs = self.take_documents();
        match pos {
            Some(p) => {
                docs.set(p, (key, value));
                let ghost t = docs@;
                assert(keys_distinct(t)) by {
                    assert forall|i: int, j: int| 0 <= i < j < t.len() implies (#[trigger] t[i]).0@ != (#[trigger] t[j]).0@ by {
                        assert(s[i].0@ != s[j].0@);
                    }
                }
                proof {
                    assert forall|k2| #[trigger] m.contains_key(k2) implies exists|i: int| 0 <= i < t.len() && t[i].0@ == k2 by {
                        if k2 == k {
                            assert(t[p as int].0@ == k2);
                        } else {
                            let i = choose|i: int| 0 <= i < s.len() && s[i].0@ == k2;
                            assert(t[i].0@ == k2);
                        }
                    }
                    assert forall|i: int| #![trigger t[i]] 0 <= i < t.len() implies m.contains_key(t[i].0@) && m[t[i].0@] == t[i].1.deep() by {
                        if i != p {
                            assert(t[i] == s[i]);
                            lemma_docs_map_at(s, i);
                            if i < p {
                                assert(s[i].0@ != s[p as int].0@);
                            } else {
                                assert(s[p as int].0@ != s[i].0@);
                            }
                        }
                    }
                    lemma_docs_map_is(t, m);
                }
            },
            None => {
                docs.push((key, value));
                let ghost t = docs@;
                assert(keys_distinct(t)) by {
                    assert forall|i: int, j: int| 0 <= i < j < t.len() implies (#[trigger] t[i]).0@ != (#[trigger] t[j]).0@ by {
                        if j < s.len() {
                            assert(s[i].0@ != s[j].0@);
                        } else {
                            assert(t[i] == s[i]);
                        }
                    }
                }
                proof {
                    assert forall|k2| #[trigger] m.contains_key(k2) implies exists|i: int| 0 <= i < t.len() && t[i].0@ == k2 by {
                        if k2 == k {
                            assert(t[s.len() as int].0@ == k2);
                        } else {
                            let i = choose|i: int| 0 <= i < s.len() && s[i].0@ == k2;
                            assert(t[i].0@ == k2);
                        }
                    }
                    assert forall|i: int| #![trigger t[i]] 0 <= i < t.len() implies m.contains_key(t[i].0@) && m[t[i].0@] == t[i].1.deep() by {
                        if i < s.len() {
                            assert(t[i] == s[i]);
                            lemma_docs_map_at(s, i);
                        }
                    }
                    lemma_docs_map_is(t, m);
                }
            },
        }
        *self = Database { documents: docs };
    }

    /// Removes the document at `key`, if any.
    fn remove(&mut self, key: &DocumentKey)
        ensures
            final(self)@ == old(self)@.remove(key@),
    {
        proof {
            use_type_invariant(&*self);
        }
        let ghost k = key@;
        let ghost s = self.documents@;
        let ghost m = self@.remove(k);
        match self.position(key) {
            Some(p) => {
                let mut docs = self.take_documents();
                let _ = docs.remove(p);
                let ghost t = docs@;
                assert(keys_distinct(t)) by {
                    assert forall|i: int, j: int| 0 <= i < j < t.len() implies (#[trigger] t[i]).0@ != (#[trigger] t[j]).0@ by {
                        if j < p {
                            assert(s[i].0@ != s[j].0@);
                        } else if i < p {
                            assert(s[i].0@ != s[j + 1].0@);
                        } else {
                            assert(s[i + 1].0@ != s[j + 1].0@);
                        }
                    }
                }
                proof {
                    assert forall|k2| #[trigger] m.contains_key(k2) implies exists|i: int| 0 <= i < t.len() && t[i].0@ == k2 by {
                        let i = choose|i: int| 0 <= i < s.len() && s[i].0@ == k2;
                        if i < p {
                            assert(t[i].0@ == k2);
                        } else {
                            assert(i != p);
                            assert(t[i - 1].0@ == k2);
                        }
                    }
                    assert forall|i: int| #![trigger t[i]] 0 <= i < t.len() implies m.contains_key(t[i].0@) && m[t[i].0@] == t[i].1.deep() by {
                        if i < p {
                            assert(t[i] == s[i]);
                            lemma_docs_map_at(s, i);
                            assert(s[i].0@ != s[p as int].0@);
                        } else {
                            assert(t[i] == s[i + 1]);
                            lemma_docs_map_at(s, i + 1);
                            assert(s[p as int].0@ != s[i + 1].0@);
                        }
                    }
                    lemma_docs_map_is(t, m);
                }
                *self = Database { documents: docs };
            },
            None => {
                assert(m =~= self@);
            },
        }
    }
}

/// A document answers a query when its key is in the collection and, where the
/// query filters on a member, that member equals the expected value.
pub open spec fn answers(
    k: (Seq<char>, Seq<char>, Seq<char>),
    v: Json,
    partition_key: Seq<char>,
    collection: Seq<char>,
    filter: Option<(Seq<char>, Json)>,
) -> bool {
    &&& k.0 == partition_key
    &&& k.1 == collection
    &&& match filter {
        Some((name, expected)) => member_matches(v, name, expected),
        None => true,
    }
}

/// `r` lists the documents of `m` that answer the query, each once, in some order.
pub open spec fn is_selection(
    m: Documents,
    r: Seq<((Seq<char>, Seq<char>, Seq<char>), Json)>,
    partition_key: Seq<char>,
    collection: Seq<char>,
    filter: Option<(Seq<char>, Json)>,
) -> bool {
    &&& forall|i: int| #![trigger r[i]] 0 <= i < r.len() ==> m.contains_key(r[i].0) && m[r[i].0] == r[i].1
        && answers(r[i].0, r[i].1, partition_key, collection, filter)
    &&& forall|k: (Seq<char>, Seq<char>, Seq<char>)| #[trigger] m.contains_key(k) && answers(
        k,
        m[k],
        partition_key,
        collection,
        filter,
    ) ==> exists|i: int| 0 <= i < r.len() && r[i].0 == k
    &&& forall|i: int, j: int| 0 <= i < j < r.len() ==> (#[trigger] r[i]).0 != (#[trigger] r[j]).0
}

/// The (key, document) pairs of a query's answer.
pub open spec fn results_view(r: Seq<(&DocumentKey, &JsonValue)>) -> Seq<((Seq<char>, Seq<char>, Seq<char>), Json)> {
    r.map_values(|p: (&DocumentKey, &JsonValue)| (p.0@, (*p.1).deep()))
}

/// A query: the documents of one collection, optionally only those whose member
/// has a given value.
pub struct Query {
    pub partition_key: String,
    pub collection: String,
    pub filter: Option<FieldFilter>,
}

/// A condition on a document: its member `field` equals `value`.
pub struct FieldFilter {
    pub field: String,
    pub value: JsonValue,
}

/// The condition of a query, as a member name and a value.
pub open spec fn filter_view(f: Option<FieldFilter>) -> Option<(Seq<char>, Json)> {
    match f {
        Some(ff) => Some((ff.field@, ff.value.deep())),
        None => None,
    }
}

/// A (key, document) pair is in collection `collection` of partition `partition_key`.
pub open spec fn collection_pred(partition_key: Seq<char>, collection: Seq<char>) -> spec_fn(
    ((Seq<char>, Seq<char>, Seq<char>), Json),
) -> bool {
    |p: ((Seq<char>, Seq<char>, Seq<char>), Json)| p.0.0 == partition_key && p.0.1 == collection
}

/// A (key, document) pair's document has member `name` equal to `expected`.
pub open spec fn member_pred(name: Seq<char>, expected: Json) -> spec_fn(
    ((Seq<char>, Seq<char>, Seq<char>), Json),
) -> bool {
    |p: ((Seq<char>, Seq<char>, Seq<char>), Json)| member_matches(p.1, name, expected)
}

/// The answer of a query on documents held in the order `entries`: the pairs of the
/// collection, in that order, then, where the query filters on a member, those of
/// them that pass the filter, in the same order.
pub open spec fn query_result(
    entries: Seq<((Seq<char>, Seq<char>, Seq<char>), Json)>,
    partition_key: Seq<char>,
    collection: Seq<char>,
    filter: Option<(Seq<char>, Json)>,
) -> Seq<((Seq<char>, Seq<char>, Seq<char>), Json)> {
    match filter {
        None => entries.filter(collection_pred(partition_key, collection)),
        Some((name, expected)) => entries.filter(collection_pred(partition_key, collection)).filter(
            member_pred(name, expected),
        ),
    }
}

/// The document `value` has member `field` equal to `expected`.
pub fn field_matches(value: &JsonValue, field: &str, expected: &JsonValue) -> (r: bool)
    requires
        json_canonical(value.deep()),
        json_canonical(expected.deep()),
    ensures
        r == member_matches(value.deep(), field@, expected.deep()),
{
    match value.get(field) {
        Some(v) => json_equal(v, expected),
        None => false,
    }
}

/// The pairs of `pairs` whose document has member `field` equal to `expected`,
/// in the order they come.
fn retain_matching<'a>(pairs: Vec<(&'a DocumentKey, &'a JsonValue)>, field: &str, expected: &JsonValue) -> (r: Vec<
    (&'a DocumentKey, &'a JsonValue),
>)
    requires
        json_canonical(expected.deep()),
        forall|j: int| 0 <= j < pairs.len() ==> json_canonical(#[trigger] results_view(pairs@)[j].1),
    ensures
        forall|j: int| 0 <= j < r.len() ==> json_canonical(#[trigger] results_view(r@)[j].1),
        forall|m: Documents, pk: Seq<char>, coll: Seq<char>|
            is_selection(m, results_view(pairs@), pk, coll, None) ==> is_selection(
                m,
                results_view(r@),
                pk,
                coll,
                Some((field@, expected.deep())),
            ),
        results_view(r@) == results_view(pairs@).filter(member_pred(field@, expected.deep())),
{
    let ghost src = results_view(pairs@);
    let ghost f = Some((field@, expected.deep()));
    let ghost mut idx: Seq<int> = Seq::empty();
    let mut out: Vec<(&'a DocumentKey, &'a JsonValue)> = Vec::new();
    let mut i: usize = 0;
    while i < pairs.len()
        invariant
            i <= pairs.len(),
            src == results_view(pairs@),
            f == Some((field@, expected.deep())),
            idx.len() == out.len(),
            forall|j: int| #![trigger idx[j]] 0 <= j < idx.len() ==> 0 <= idx[j] < i && results_view(out@)[j] == src[idx[j]]
                && member_matches(src[idx[j]].1, field@, expected.deep()),
            forall|a: int, b: int| 0 <= a < b < idx.len() ==> #[trigger] idx[a] < #[trigger] idx[b],
            forall|t: int| #![trigger src[t]] 0 <= t < i && member_matches(src[t].1, field@, expected.deep()) ==> exists|j: int|
                0 <= j < idx.len() && idx[j] == t,
            results_view(out@) == src.take(i as int).filter(member_pred(field@, expected.deep())),
            json_canonical(expected.deep()),
            forall|j: int| 0 <= j < src.len() ==> json_canonical(#[trigger] src[j].1),
            forall|j: int| 0 <= j < out.len() ==> json_canonical(#[trigger] results_view(out@)[j].1),
        decreases pairs.len() - i,
    {
        proof {
            reveal(Seq::filter);
        }
        assert(src.take(i + 1).drop_last() =~= src.take(i as int));
        assert(src.take(i + 1).last() == src[i as int]);
        let (k, v) = pairs[i];
        let ghost before = results_view(out@);
        assert(src[i as int].1 == v.deep());
        if field_matches(v, field, expected) {
            out.push((k, v));
            let ghost old_idx = idx;
            proof {
                idx = idx.push(i as int);
                assert forall|t: int| #![trigger src[t]] 0 <= t < i + 1 && member_matches(src[t].1, field@, expected.deep()) implies exists|j: int|
                    0 <= j < idx.len() && idx[j] == t by {
                    if t < i {
                        let j = choose|j: int| 0 <= j < old_idx.len() && old_idx[j] == t;
                        assert(idx[j] == t);
                    } else {
                        assert(idx[idx.len() - 1] == t);
                    }
                }
            }
            assert(results_view(out@) =~= before.push(src[i as int]));
            assert(member_pred(field@, expected.deep())(src[i as int]));
            assert(src.take(i + 1).filter(member_pred(field@, expected.deep())) == src.take(i as int).filter(
                member_pred(field@, expected.deep()),
            ).push(src[i as int]));
            assert(idx[idx.len() - 1] == i);
        } else {
            assert(results_view(out@) =~= before);
            assert(!member_pred(field@, expected.deep())(src[i as int]));
            assert(src.take(i + 1).filter(member_pred(field@, expected.deep())) == src.take(i as int).filter(
                member_pred(field@, expected.deep()),
            ));
        }
        i = i + 1;
    }
    assert(src.take(src.len() as int) =~= src);
    proof {
        let rv = results_view(out@);
        assert forall|m: Documents, pk: Seq<char>, coll: Seq<char>| is_selection(m, src, pk, coll, None) implies is_selection(m, rv, pk, coll, f) by {
            assert forall|i: int| #![trigger rv[i]] 0 <= i < rv.len() implies m.contains_key(rv[i].0) && m[rv[i].0] == rv[i].1 && answers(rv[i].0, rv[i].1, pk, coll, f) by {
                assert(idx[i] == idx[i]);
                assert(src[idx[i]] == src[idx[i]]);
            }
            assert forall|k: (Seq<char>, Seq<char>, Seq<char>)| #[trigger] m.contains_key(k) && answers(k, m[k], pk, coll, f) implies exists|i: int| 0 <= i < rv.len() && rv[i].0 == k by {
                assert(answers(k, m[k], pk, coll, None));
                let t = choose|t: int| 0 <= t < src.len() && src[t].0 == k;
                assert(src[t].0 == k);
                let j = choose|j: int| 0 <= j < idx.len() && idx[j] == t;
                assert(idx[j] == t);
                assert(rv[j].0 == k);
            }
            assert forall|a: int, b: int| 0 <= a < b < rv.len() implies (#[trigger] rv[a]).0 != (#[trigger] rv[b]).0 by {
                assert(idx[a] < idx[b]);
                assert(src[idx[a]].0 != src[idx[b]].0);
            }
        }
    }
    out
}

impl Database {
    /// The store that the commit log `log` describes: its records applied in order.
    pub fn open(log: Vec<LogEntry>) -> (r: Database)
        requires
            log_canonical(log@),
        ensures
            r@ == replay(log@),
    {
        let ghost all = log@;
        let mut db = Database { documents: Vec::new() };
        assert(db@ =~= replay(all.take(0)));
        for entry in it: log
            invariant
                it.seq() == all,
                db@ == replay(all.take(it.index() as int)),
                log_canonical(all),
        {
            let ghost i = it.index();
            assert(entry == all[i as int]);
            assert(all.take(i + 1).drop_last() =~= all.take(i as int));
            assert(all.take(i + 1).last() == all[i as int]);
            match entry {
                LogEntry::Add { key, value } => db.insert(key, value),
                LogEntry::Delete { key } => db.remove(&key),
            }
        }
        assert(all.take(all.len() as int) =~= all);
        db
    }

    /// Stores a copy of `value` at `key`, and hands back the commit log record of it.
    pub fn add_document(&mut self, key: &DocumentKey, value: &JsonValue) -> (r: LogEntry)
        requires
            json_canonical(value.deep()),
        ensures
            final(self)@ == old(self)@.insert(key@, value.deep()),
            r matches LogEntry::Add { key: k, value: v } && k@ == key@ && v.deep() == value.deep(),
            final(self)@ == apply_entry(old(self)@, r),
    {
        let key = clone_key(key);
        let value_copy = clone_json(value);
        self.insert(clone_key(&key), clone_json(&value_copy));
        LogEntry::Add { key, value: value_copy }
    }

    /// The document at `key`, if any.
    pub fn get_document(&self, key: &DocumentKey) -> (r: Option<&JsonValue>)
        ensures
            match r {
                Some(v) => self@.contains_key(key@) && self@[key@] == v.deep(),
                None => !self@.contains_key(key@),
            },
    {
        proof {
            use_type_invariant(self);
        }
        match self.position(key) {
            Some(i) => {
                proof {
                    lemma_docs_map_at(self.documents@, i as int);
                }
                Some(&self.documents[i].1)
            },
            None => None,
        }
    }

    /// Removes the document at `key`, if any, and hands back the commit log record of it.
    pub fn delete_document(&mut self, key: &DocumentKey) -> (r: LogEntry)
        ensures
            final(self)@ == old(self)@.remove(key@),
            r matches LogEntry::Delete { key: k } && k@ == key@,
            final(self)@ == apply_entry(old(self)@, r),
    {
        let key = clone_key(key);
        self.remove(&key);
        LogEntry::Delete { key }
    }

    /// The documents of collection `collection` in partition `partition_key`.
    pub fn scan_collection(&self, partition_key: &str, collection: &str) -> (r: Vec<(&DocumentKey, &JsonValue)>)
        ensures
            is_selection(self@, results_view(r@), partition_key@, collection@, None),
            results_view(r@) == query_result(self.entries(), partition_key@, collection@, None),
            forall|j: int| 0 <= j < r.len() ==> json_canonical(#[trigger] results_view(r@)[j].1),
    {
        proof {
            use_type_invariant(self);
        }
        let pk = partition_key.to_owned();
        let coll = collection.to_owned();
        let ghost s = self.documents@;
        let ghost m = self@;
        let ghost ev = self.entries();
        let ghost mut idx: Seq<int> = Seq::empty();
        let mut out: Vec<(&DocumentKey, &JsonValue)> = Vec::new();
        let mut i: usize = 0;
        while i < self.documents.len()
            invariant
                i <= s.len(),
                s == self.documents@,
                m == self@,
                keys_distinct(s),
                pk@ == partition_key@,
                coll@ == collection@,
                idx.len() == out.len(),
                forall|j: int| #![trigger idx[j]] 0 <= j < idx.len() ==> 0 <= idx[j] < i && results_view(out@)[j] == (s[idx[j]].0@, s[idx[j]].1.deep())
                    && answers(s[idx[j]].0@, s[idx[j]].1.deep(), partition_key@, collection@, None),
                forall|a: int, b: int| 0 <= a < b < idx.len() ==> #[trigger] idx[a] < #[trigger] idx[b],
                forall|t: int| #![trigger s[t]] 0 <= t < i && answers(s[t].0@, s[t].1.deep(), partition_key@, collection@, None) ==> exists|j: int|
                    0 <= j < idx.len() && idx[j] == t,
                ev == self.entries(),
                results_view(out@) == ev.take(i as int).filter(collection_pred(partition_key@, collection@)),
            decreases s.len() - i,
        {
            proof {
                reveal(Seq::filter);
            }
            assert(ev.take(i + 1).drop_last() =~= ev.take(i as int));
            assert(ev.take(i + 1).last() == ev[i as int]);
            let ghost before = results_view(out@);
            let entry = &self.documents[i];
            if entry.0.partition_key == pk && entry.0.collection == coll {
                out.push((&entry.0, &entry.1));
                let ghost old_idx = idx;
                proof {
                    idx = idx.push(i as int);
                    assert forall|t: int| #![trigger s[t]] 0 <= t < i + 1 && answers(s[t].0@, s[t].1.deep(), partition_key@, collection@, None) implies exists|j: int|
                        0 <= j < idx.len() && idx[j] == t by {
                        if t < i {
                            let j = choose|j: int| 0 <= j < old_idx.len() && old_idx[j] == t;
                            assert(idx[j] == t);
                        } else {
                            assert(idx[idx.len() - 1] == t);
                        }
                    }
                }
                assert(results_view(out@) =~= before.push((s[i as int].0@, s[i as int].1.deep())));
                assert(ev[i as int] == (s[i as int].0@, s[i as int].1.deep()));
                assert(collection_pred(partition_key@, collection@)(ev[i as int]));
                assert(ev.take(i + 1).filter(collection_pred(partition_key@, collection@)) == ev.take(
                    i as int,
                ).filter(collection_pred(partition_key@, collection@)).push(ev[i as int]));
                assert(idx[idx.len() - 1] == i);
            } else {
                assert(results_view(out@) =~= before);
                assert(ev[i as int] == (s[i as int].0@, s[i as int].1.deep()));
                assert(!collection_pred(partition_key@, collection@)(ev[i as int]));
                assert(ev.take(i + 1).filter(collection_pred(partition_key@, collection@)) == ev.take(
                    i as int,
                ).filter(collection_pred(partition_key@, collection@)));
            }
            i = i + 1;
        }
        assert(ev.take(s.len() as int) =~= ev);
        proof {
            let rv = results_view(out@);
            assert forall|j: int| #![trigger rv[j]] 0 <= j < rv.len() implies m.contains_key(rv[j].0) && m[rv[j].0] == rv[j].1 && answers(rv[j].0, rv[j].1, partition_key@, collection@, None) by {
                assert(idx[j] == idx[j]);
                lemma_docs_map_at(s, idx[j]);
            }
            assert forall|k: (Seq<char>, Seq<char>, Seq<char>)| #[trigger] m.contains_key(k) && answers(k, m[k], partition_key@, collection@, None) implies exists|j: int| 0 <= j < rv.len() && rv[j].0 == k by {
                let t = doc_index(s, k);
                assert(s[t].0@ == k);
                lemma_docs_map_at(s, t);
                let j = choose|j: int| 0 <= j < idx.len() && idx[j] == t;
                assert(idx[j] == t);
                assert(rv[j].0 == k);
            }
            assert forall|a: int, b: int| 0 <= a < b < rv.len() implies (#[trigger] rv[a]).0 != (#[trigger] rv[b]).0 by {
                assert(idx[a] < idx[b]);
                assert(s[idx[a]].0@ != s[idx[b]].0@);
            }
        }
        out
    }

    /// The documents of collection `collection` in partition `partition_key` whose
    /// member `field` equals `expected_value`.
    pub fn scan_collection_where(
        &self,
        partition_key: &str,
        collection: &str,
        field: &str,
        expected_value: &JsonValue,
    ) -> (r: Vec<(&DocumentKey, &JsonValue)>)
        requires
            json_canonical(expected_value.deep()),
        ensures
            is_selection(
                self@,
                results_view(r@),
                partition_key@,
                collection@,
                Some((field@, expected_value.deep())),
            ),
            results_view(r@) == query_result(
                self.entries(),
                partition_key@,
                collection@,
                Some((field@, expected_value.deep())),
            ),
    {
        let all = self.scan_collection(partition_key, collection);
        retain_matching(all, field, expected_value)
    }

    /// The documents that answer `query`.
    pub fn execute_query(&self, query: &Query) -> (r: Vec<(&DocumentKey, &JsonValue)>)
        requires
            query.filter matches Some(f) ==> json_canonical(f.value.deep()),
        ensures
            is_selection(
                self@,
                results_view(r@),
                query.partition_key@,
                query.collection@,
                filter_view(query.filter),
            ),
            results_view(r@) == query_result(
                self.entries(),
                query.partition_key@,
                query.collection@,
                filter_view(query.filter),
            ),
    {
        let res = self.scan_collection(query.partition_key.as_str(), query.collection.as_str());
        match &query.filter {
            Some(field_filter) => retain_matching(res, field_filter.field.as_str(), &field_filter.value),
            None => res,
        }
    }
}

} // verus!
