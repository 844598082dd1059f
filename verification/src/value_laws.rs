//! What equality of JSON values, member filters, collection scans and console
//! words mean, stated over all inputs.
use crate::cli::{command_of, is_white, lemma_word_len_bounds, word_len, words, CommandView};
use crate::document::{
    member_lookup,
    collection_pred, is_selection, json_get, json_same, member_matches, member_pred, query_result, Documents,
    Json, JsonNumber,
};
use vstd::prelude::*;

verus! {

/// Two numbers are equal exactly when they denote the same number: integers by
/// their value (a non-negative integer never equals a negative one), doubles when
/// their bits agree or both are a zero, and an integer never equals a double.
pub proof fn law_number_equality(x: u64, y: u64, p: i64, q: i64, f: u64, g: u64)
    ensures
        json_same(Json::Number(JsonNumber::PosInt(x)), Json::Number(JsonNumber::PosInt(y))) <==> x == y,
        json_same(Json::Number(JsonNumber::NegInt(p)), Json::Number(JsonNumber::NegInt(q))) <==> p == q,
        !json_same(Json::Number(JsonNumber::PosInt(x)), Json::Number(JsonNumber::NegInt(p))),
        !json_same(Json::Number(JsonNumber::NegInt(p)), Json::Number(JsonNumber::PosInt(x))),
        json_same(Json::Number(JsonNumber::Float(f)), Json::Number(JsonNumber::Float(g))) <==> (f == g || (f
            & 0x7fff_ffff_ffff_ffffu64 == 0 && g & 0x7fff_ffff_ffff_ffffu64 == 0)),
        !json_same(Json::Number(JsonNumber::PosInt(x)), Json::Number(JsonNumber::Float(f))),
        !json_same(Json::Number(JsonNumber::NegInt(p)), Json::Number(JsonNumber::Float(f))),
{
    assert(0u64 & 0x7fff_ffff_ffff_ffffu64 == 0u64) by (bit_vector);
}

/// Values of different kinds are never equal; null equals null; booleans and
/// strings are equal exactly when they are the same.
pub proof fn law_scalar_equality(a: Json, b: Json, x: bool, y: bool, s: Seq<char>, t: Seq<char>)
    ensures
        json_same(Json::Null, Json::Null),
        (a is Null) != (b is Null) ==> !json_same(a, b),
        (a is Bool) != (b is Bool) ==> !json_same(a, b),
        (a is Number) != (b is Number) ==> !json_same(a, b),
        (a is Str) != (b is Str) ==> !json_same(a, b),
        (a is Array) != (b is Array) ==> !json_same(a, b),
        (a is Object) != (b is Object) ==> !json_same(a, b),
        json_same(Json::Bool(x), Json::Bool(y)) <==> x == y,
        json_same(Json::Str(s), Json::Str(t)) <==> s == t,
{
}

/// Arrays are equal exactly when they have the same length and are equal element
/// by element; objects exactly when they have the same member names in the same
/// order and equal members.
pub proof fn law_compound_equality(xs: Seq<Json>, ys: Seq<Json>, fs: Seq<(Seq<char>, Json)>, gs: Seq<(Seq<char>, Json)>)
    ensures
        json_same(Json::Array(xs), Json::Array(ys)) <==> (xs.len() == ys.len() && forall|i: int|
            0 <= i < xs.len() ==> json_same(#[trigger] xs[i], ys[i])),
        json_same(Json::Object(fs), Json::Object(gs)) <==> (fs.len() == gs.len() && forall|i: int|
            0 <= i < fs.len() ==> (#[trigger] fs[i]).0 == gs[i].0 && json_same(fs[i].1, gs[i].1)),
{
    let sa = crate::document::same_zero(Json::Array(xs));
    let sb = crate::document::same_zero(Json::Array(ys));
    if json_same(Json::Array(xs), Json::Array(ys)) {
        assert(sa->Array_0.len() == xs.len());
        assert(sb->Array_0.len() == ys.len());
        assert forall|i: int| 0 <= i < xs.len() implies json_same(#[trigger] xs[i], ys[i]) by {
            assert(sa->Array_0[i] == crate::document::same_zero(xs[i]));
            assert(sb->Array_0[i] == crate::document::same_zero(ys[i]));
            assert(sa->Array_0[i] == sb->Array_0[i]);
        }
    }
    if xs.len() == ys.len() && forall|i: int| 0 <= i < xs.len() ==> json_same(#[trigger] xs[i], ys[i]) {
        assert(sa->Array_0 =~= sb->Array_0);
    }
    let oa = crate::document::same_zero(Json::Object(fs));
    let ob = crate::document::same_zero(Json::Object(gs));
    if json_same(Json::Object(fs), Json::Object(gs)) {
        assert(oa->Object_0.len() == fs.len());
        assert(ob->Object_0.len() == gs.len());
        assert forall|i: int| 0 <= i < fs.len() implies (#[trigger] fs[i]).0 == gs[i].0 && json_same(
            fs[i].1,
            gs[i].1,
        ) by {
            assert(oa->Object_0[i] == (fs[i].0, crate::document::same_zero(fs[i].1)));
            assert(ob->Object_0[i] == (gs[i].0, crate::document::same_zero(gs[i].1)));
            assert(oa->Object_0[i] == ob->Object_0[i]);
        }
    }
    if fs.len() == gs.len() && forall|i: int|
        0 <= i < fs.len() ==> (#[trigger] fs[i]).0 == gs[i].0 && json_same(fs[i].1, gs[i].1) {
        assert(oa->Object_0 =~= ob->Object_0);
    }
}

/// A member lookup gives nothing on a value that is not an object; on an object it
/// gives the member of the first entry with that name, and nothing when no entry
/// has it.
pub proof fn law_member_lookup(v: Json, fs: Seq<(Seq<char>, Json)>, name: Seq<char>, i: int)
    ensures
        !(v is Object) ==> json_get(v, name) is None,
        (forall|j: int| 0 <= j < fs.len() ==> (#[trigger] fs[j]).0 != name) ==> json_get(Json::Object(fs), name)
            is None,
        0 <= i < fs.len() && fs[i].0 == name && (forall|j: int| 0 <= j < i ==> (#[trigger] fs[j]).0 != name)
            ==> json_get(Json::Object(fs), name) == Some(fs[i].1),
    decreases fs.len(),
{
    if fs.len() > 0 {
        let rest = fs.drop_first();
        law_member_lookup(v, rest, name, i - 1);
        if forall|j: int| 0 <= j < fs.len() ==> (#[trigger] fs[j]).0 != name {
            assert(fs[0].0 != name);
            assert forall|j: int| 0 <= j < rest.len() implies (#[trigger] rest[j]).0 != name by {
                assert(rest[j] == fs[j + 1]);
            }
        }
        if 0 <= i < fs.len() && fs[i].0 == name && (forall|j: int| 0 <= j < i ==> (#[trigger] fs[j]).0 != name) {
            if i > 0 {
                assert(fs[0].0 != name);
                assert(rest[i - 1] == fs[i]);
                assert forall|j: int| 0 <= j < i - 1 implies (#[trigger] rest[j]).0 != name by {
                    assert(rest[j] == fs[j + 1]);
                }
            }
        }
    }
}

/// A member filter passes a document exactly when the document has the member and
/// the member equals the expected value; so a string member must be the expected
/// string itself, and a boolean member the expected boolean.
pub proof fn law_member_filter(v: Json, name: Seq<char>, expected: Json, x: Json, s: Seq<char>, e: Seq<char>, b: bool, c: bool)
    ensures
        member_matches(v, name, expected) ==> json_get(v, name) is Some,
        json_get(v, name) == Some(x) ==> (member_matches(v, name, expected) <==> json_same(x, expected)),
        json_get(v, name) == Some(Json::Str(s)) ==> (member_matches(v, name, Json::Str(e)) <==> s == e),
        json_get(v, name) == Some(Json::Bool(b)) ==> (member_matches(v, name, Json::Bool(c)) <==> b == c),
{
}

/// Every pair that answers a query is in the requested partition and collection,
/// exactly, is what the store holds at its key, and passes the member filter if
/// there is one; every document of the collection that passes the filter is among
/// the answers.
pub proof fn law_selection_is_exact(
    m: Documents,
    r: Seq<((Seq<char>, Seq<char>, Seq<char>), Json)>,
    partition_key: Seq<char>,
    collection: Seq<char>,
    filter: Option<(Seq<char>, Json)>,
    name: Seq<char>,
    expected: Json,
)
    requires
        is_selection(m, r, partition_key, collection, filter),
    ensures
        forall|i: int| 0 <= i < r.len() ==> (#[trigger] r[i]).0.0 == partition_key && r[i].0.1 == collection
            && m.contains_key(r[i].0) && m[r[i].0] == r[i].1,
        filter == Some((name, expected)) ==> forall|i: int|
            0 <= i < r.len() ==> member_matches((#[trigger] r[i]).1, name, expected),
        filter is None ==> forall|k: (Seq<char>, Seq<char>, Seq<char>)|
            #![trigger m.contains_key(k)]
            m.contains_key(k) && k.0 == partition_key && k.1 == collection ==> exists|i: int|
                0 <= i < r.len() && r[i].0 == k,
        filter == Some((name, expected)) ==> forall|k: (Seq<char>, Seq<char>, Seq<char>)|
            #![trigger m.contains_key(k)]
            m.contains_key(k) && k.0 == partition_key && k.1 == collection && member_matches(m[k], name, expected)
                ==> exists|i: int| 0 <= i < r.len() && r[i].0 == k,
{
    assert forall|i: int| 0 <= i < r.len() implies (#[trigger] r[i]).0.0 == partition_key && r[i].0.1 == collection
        && m.contains_key(r[i].0) && m[r[i].0] == r[i].1 by {
        assert(r[i] == r[i]);
    }
    if filter == Some((name, expected)) {
        assert forall|i: int| 0 <= i < r.len() implies member_matches((#[trigger] r[i]).1, name, expected) by {
            assert(r[i] == r[i]);
        }
    }
}

/// In a query's answer list every pair is in the requested partition and
/// collection, exactly, and passes the member filter; every pair of the store's
/// list that does so is in the answer.
pub proof fn law_query_result_is_exact(
    entries: Seq<((Seq<char>, Seq<char>, Seq<char>), Json)>,
    partition_key: Seq<char>,
    collection: Seq<char>,
    name: Seq<char>,
    expected: Json,
)
    ensures
        forall|i: int|
            0 <= i < query_result(entries, partition_key, collection, None).len() ==> {
                let p = #[trigger] query_result(entries, partition_key, collection, None)[i];
                &&& p.0.0 == partition_key
                &&& p.0.1 == collection
                &&& entries.contains(p)
            },
        forall|j: int|
            0 <= j < entries.len() && (#[trigger] entries[j]).0.0 == partition_key && entries[j].0.1 == collection
                ==> query_result(entries, partition_key, collection, None).contains(entries[j]),
        forall|i: int|
            0 <= i < query_result(entries, partition_key, collection, Some((name, expected))).len() ==> {
                let p = #[trigger] query_result(entries, partition_key, collection, Some((name, expected)))[i];
                &&& p.0.0 == partition_key
                &&& p.0.1 == collection
                &&& entries.contains(p)
                &&& member_matches(p.1, name, expected)
            },
        forall|j: int|
            0 <= j < entries.len() && (#[trigger] entries[j]).0.0 == partition_key && entries[j].0.1 == collection
                && member_matches(entries[j].1, name, expected) ==> query_result(
                entries,
                partition_key,
                collection,
                Some((name, expected)),
            ).contains(entries[j]),
{
    broadcast use vstd::seq_lib::group_filter_ensures;

    let cp = collection_pred(partition_key, collection);
    let scanned = entries.filter(cp);
    assert forall|i: int| 0 <= i < scanned.len() implies {
        let p = #[trigger] scanned[i];
        &&& p.0.0 == partition_key
        &&& p.0.1 == collection
        &&& entries.contains(p)
    } by {
        assert(cp(scanned[i]));
        assert(scanned.contains(scanned[i]));
        entries.lemma_filter_contains_rev(cp, scanned[i]);
    }
    assert forall|j: int|
        0 <= j < entries.len() && (#[trigger] entries[j]).0.0 == partition_key && entries[j].0.1 == collection implies scanned.contains(
        entries[j],
    ) by {
        assert(cp(entries[j]));
    }
    let mp = member_pred(name, expected);
    let res = scanned.filter(mp);
    assert forall|i: int| 0 <= i < res.len() implies {
        let p = #[trigger] res[i];
        &&& p.0.0 == partition_key
        &&& p.0.1 == collection
        &&& entries.contains(p)
        &&& member_matches(p.1, name, expected)
    } by {
        assert(mp(res[i]));
        assert(res.contains(res[i]));
        scanned.lemma_filter_contains_rev(mp, res[i]);
        assert(scanned.contains(res[i]));
        let k = choose|k: int| 0 <= k < scanned.len() && scanned[k] == res[i];
        assert(cp(scanned[k]));
    }
    assert forall|j: int|
        0 <= j < entries.len() && (#[trigger] entries[j]).0.0 == partition_key && entries[j].0.1 == collection
            && member_matches(entries[j].1, name, expected) implies res.contains(entries[j]) by {
        assert(cp(entries[j]));
        assert(scanned.contains(entries[j]));
        let k = choose|k: int| 0 <= k < scanned.len() && scanned[k] == entries[j];
        assert(mp(scanned[k]));
    }
}

/// The printable ASCII characters (from `!` to `~`) are not white space; the
/// ASCII blanks (tab, line feed, vertical tab, form feed, carriage return, space)
/// are.
pub proof fn law_ascii_white_space(c: char)
    ensures
        0x21 <= (c as u32) <= 0x7e ==> !is_white(c),
        (c == '\t' || c == '\n' || c == '\x0b' || c == '\x0c' || c == '\r' || c == ' ') ==> is_white(c),
{
}

proof fn lemma_word_len_of_word(s: Seq<char>)
    requires
        forall|i: int| 0 <= i < s.len() ==> !is_white(#[trigger] s[i]),
    ensures
        word_len(s) == s.len(),
    decreases s.len(),
{
    if s.len() > 0 {
        assert forall|i: int| 0 <= i < s.drop_first().len() implies !is_white(#[trigger] s.drop_first()[i]) by {
            assert(s.drop_first()[i] == s[i + 1]);
        }
        lemma_word_len_of_word(s.drop_first());
    }
}

/// A run of characters none of which is white space is one word, whatever its
/// characters (a dot, say) are.
pub proof fn law_single_word(s: Seq<char>)
    requires
        s.len() > 0,
        forall|i: int| 0 <= i < s.len() ==> !is_white(#[trigger] s[i]),
    ensures
        words(s) == seq![s],
{
    lemma_word_len_of_word(s);
    assert(s.take(s.len() as int) =~= s);
    assert(s.skip(s.len() as int) =~= Seq::<char>::empty());
    assert(words(Seq::<char>::empty()) == Seq::<Seq<char>>::empty());
    assert(seq![s] + Seq::<Seq<char>>::empty() =~= seq![s]);
}

proof fn lemma_word_len_before_white(s1: Seq<char>, c: char, s2: Seq<char>)
    requires
        is_white(c),
    ensures
        word_len(s1 + seq![c] + s2) == word_len(s1),
    decreases s1.len(),
{
    let t = s1 + seq![c] + s2;
    if s1.len() == 0 {
        assert(t[0] == c);
    } else {
        assert(t[0] == s1[0]);
        if !is_white(s1[0]) {
            assert(t.drop_first() =~= s1.drop_first() + seq![c] + s2);
            lemma_word_len_before_white(s1.drop_first(), c, s2);
        }
    }
}

/// A white space character separates words: the words of `s1`, a white space
/// character, then `s2` are the words of `s1` followed by those of `s2`.
pub proof fn law_white_space_separates(s1: Seq<char>, c: char, s2: Seq<char>)
    requires
        is_white(c),
    ensures
        words(s1 + seq![c] + s2) == words(s1) + words(s2),
    decreases s1.len(),
{
    let t = s1 + seq![c] + s2;
    if s1.len() == 0 {
        assert(t[0] == c);
        assert(t.drop_first() =~= s2);
        assert(words(s1) == Seq::<Seq<char>>::empty());
        assert(words(t) == words(t.drop_first()));
        assert(Seq::<Seq<char>>::empty() + words(s2) =~= words(s2));
    } else if is_white(s1[0]) {
        assert(t[0] == s1[0]);
        assert(t.drop_first() =~= s1.drop_first() + seq![c] + s2);
        law_white_space_separates(s1.drop_first(), c, s2);
    } else {
        assert(t[0] == s1[0]);
        lemma_word_len_before_white(s1, c, s2);
        lemma_word_len_bounds(s1);
        let n = word_len(s1);
        assert(t.take(n as int) =~= s1.take(n as int));
        assert(t.skip(n as int) =~= s1.skip(n as int) + seq![c] + s2);
        law_white_space_separates(s1.skip(n as int), c, s2);
        assert(words(t) == seq![t.take(n as int)] + words(t.skip(n as int)));
        assert(words(s1) == seq![s1.take(n as int)] + words(s1.skip(n as int)));
        assert(seq![s1.take(n as int)] + (words(s1.skip(n as int)) + words(s2)) =~= (seq![s1.take(n as int)]
            + words(s1.skip(n as int))) + words(s2));
    }
}

/// `put`, a key and a value, each without white space and separated by white
/// space, is the command to put that value at that key.
pub proof fn law_put_command(c: char, key: Seq<char>, d: char, value: Seq<char>)
    requires
        is_white(c),
        is_white(d),
        key.len() > 0,
        value.len() > 0,
        forall|i: int| 0 <= i < key.len() ==> !is_white(#[trigger] key[i]),
        forall|i: int| 0 <= i < value.len() ==> !is_white(#[trigger] value[i]),
    ensures
        command_of(words(seq!['p', 'u', 't'] + seq![c] + key + seq![d] + value)) == CommandView::Put(key, value),
{
    let p = seq!['p', 'u', 't'];
    assert forall|i: int| 0 <= i < p.len() implies !is_white(#[trigger] p[i]) by {
        law_ascii_white_space(p[i]);
    }
    law_single_word(p);
    law_single_word(key);
    law_single_word(value);
    law_white_space_separates(p + seq![c] + key, d, value);
    law_white_space_separates(p, c, key);
    assert(words(p + seq![c] + key + seq![d] + value) =~= seq![p, key, value]);
}

/// A console line is a put only when it has three words, the first `put`; a get
/// only when it has two, the first `get`; `clear` and `help` only alone.
pub proof fn law_command_shapes(w: Seq<Seq<char>>)
    ensures
        command_of(w) matches CommandView::Put(k, v) ==> w.len() == 3 && w[0] == seq!['p', 'u', 't'] && k == w[1]
            && v == w[2],
        command_of(w) matches CommandView::Get(k) ==> w.len() == 2 && w[0] == seq!['g', 'e', 't'] && k == w[1],
        command_of(w) is Clear ==> w == seq![seq!['c', 'l', 'e', 'a', 'r']],
        command_of(w) is Help ==> w == seq![seq!['h', 'e', 'l', 'p']],
        w.len() == 0 ==> command_of(w) is Invalid,
{
    if command_of(w) is Clear {
        assert(w =~= seq![seq!['c', 'l', 'e', 'a', 'r']]);
    }
    if command_of(w) is Help {
        assert(w =~= seq![seq!['h', 'e', 'l', 'p']]);
    }
}

/// `get`, a white space character, then a key without white space (such as
/// `user.name`) is the command to get that key.
pub proof fn law_get_command(c: char, key: Seq<char>)
    requires
        is_white(c),
        key.len() > 0,
        forall|i: int| 0 <= i < key.len() ==> !is_white(#[trigger] key[i]),
    ensures
        command_of(words(seq!['g', 'e', 't'] + seq![c] + key)) == CommandView::Get(key),
{
    let g = seq!['g', 'e', 't'];
    law_white_space_separates(g, c, key);
    law_single_word(key);
    assert forall|i: int| 0 <= i < g.len() implies !is_white(#[trigger] g[i]) by {
        law_ascii_white_space(g[i]);
    }
    law_single_word(g);
    let w = words(g + seq![c] + key);
    assert(w =~= seq![g, key]);
}

} // verus!
