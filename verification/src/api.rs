//! The response-normalization engine.
//!
//! A raw service response is reshaped into a strict domain model,
//! `MoedictResult`, with per-field failure isolation: a missing or
//! malformed field becomes an absent value for that entry alone and never
//! discards sibling fields or sibling entries.

use indexmap::IndexMap;

use crate::idxmap::{
    dmap_contains, dmap_entries, dmap_insert_new, dmap_new, dmap_push_group, tmap_entries,
    tmap_insert, tmap_new,
};
use crate::json::{json_of, lookup, parse_text, JsonValue};
use crate::text::{chars_of, contains_seq, find_sub, strip_markers, stripped};
use vstd::prelude::*;

verus! {

/// One matched headword sense: pronunciations and definitions, each absent
/// when the service's field was missing or malformed.
pub struct MoedictItemResult {
    pub pinyin: Option<String>,
    pub bopomofo: Option<String>,
    pub defination: Option<IndexMap<String, Vec<Vec<String>>>>,
}

/// A whole normalized lookup result: one item per headword sense, plus the
/// optional translation table.
pub struct MoedictResult {
    pub moedict_item_result: Vec<MoedictItemResult>,
    pub translation: Option<IndexMap<String, Vec<String>>>,
}

/// A command-level lookup failure.  Shape errors inside the engine never
/// surface here; only a not-found page or a body that is not a JSON object
/// does.
#[derive(Debug)]
pub enum LookupError {
    NotFound(String),
    ParseFailure,
}

/// The index of the first pair with this key, or -1 when no pair has it.
pub open spec fn find_key<V>(s: Seq<(Seq<char>, V)>, k: Seq<char>) -> int
    decreases s.len(),
{
    if s.len() == 0 {
        -1
    } else if s[0].0 == k {
        0
    } else {
        let r = find_key(s.drop_first(), k);
        if r == -1 {
            -1
        } else {
            r + 1
        }
    }
}

/// No two pairs share a key.
pub open spec fn distinct_keys<V>(s: Seq<(Seq<char>, V)>) -> bool {
    forall|i: int, j: int| 0 <= i < j < s.len() ==> s[i].0 != s[j].0
}

pub proof fn lemma_find_key<V>(s: Seq<(Seq<char>, V)>, k: Seq<char>)
    ensures
        find_key(s, k) == -1 <==> (forall|i: int| 0 <= i < s.len() ==> (#[trigger] s[i]).0 != k),
        find_key(s, k) != -1 ==> 0 <= find_key(s, k) < s.len() && s[find_key(s, k)].0 == k,
    decreases s.len(),
{
    if s.len() > 0 {
        lemma_find_key(s.drop_first(), k);
        assert(forall|i: int|
            1 <= i < s.len() ==> (#[trigger] s[i]) == s.drop_first()[i - 1]);
    }
}

/// The pinyin of a sense: the string under `p`, absent on any other shape.
pub open spec fn pinyin_of(sense: JsonValue) -> Option<Seq<char>> {
    match lookup(sense, "p"@) {
        Some(JsonValue::Str(s)) => Some(s@),
        _ => None,
    }
}

/// The bopomofo of a sense: the string under `b`, absent on any other
/// shape.
pub open spec fn bopomofo_of(sense: JsonValue) -> Option<Seq<char>> {
    match lookup(sense, "b"@) {
        Some(JsonValue::Str(s)) => Some(s@),
        _ => None,
    }
}

/// The string elements of an array, in order; other elements are skipped.
pub open spec fn strings_of(items: Seq<JsonValue>) -> Seq<Seq<char>>
    decreases items.len(),
{
    if items.len() == 0 {
        Seq::empty()
    } else {
        let rest = strings_of(items.drop_last());
        match items.last() {
            JsonValue::Str(s) => rest.push(s@),
            _ => rest,
        }
    }
}

/// True when every element of the array is a string.
pub open spec fn all_strings(items: Seq<JsonValue>) -> bool {
    forall|i: int| 0 <= i < items.len() ==> (#[trigger] items[i]) is Str
}

/// The part-of-speech tag of one raw definition item: the string under
/// `type`, or `notype` when that key is missing or not a string.
pub open spec fn tag_of(item: JsonValue) -> Seq<char> {
    match lookup(item, "type"@) {
        Some(JsonValue::Str(s)) => s@,
        _ => "notype"@,
    }
}

/// The definition text of one raw item: the string under `f`, if any.
pub open spec fn text_of(item: JsonValue) -> Seq<Seq<char>> {
    match lookup(item, "f"@) {
        Some(JsonValue::Str(s)) => seq![s@],
        _ => Seq::empty(),
    }
}

/// The strings of the array under `key` in the item, none on any other
/// shape.
pub open spec fn list_strings(item: JsonValue, key: Seq<char>) -> Seq<Seq<char>> {
    match lookup(item, key) {
        Some(JsonValue::Array(a)) => strings_of(a@),
        _ => Seq::empty(),
    }
}

/// The definition group of one raw item: the text under `f`, then the
/// quotations, examples and cross-references under `q`, `e` and `l`, in
/// that fixed order, pooled into one flat list.
pub open spec fn group_of(item: JsonValue) -> Seq<Seq<char>> {
    text_of(item) + list_strings(item, "q"@) + list_strings(item, "e"@) + list_strings(item, "l"@)
}

/// One raw item's group appended under its tag: a tag already seen gains
/// one more group in place; a new tag is appended with this group alone.
pub open spec fn add_group(
    defs: Seq<(Seq<char>, Seq<Seq<Seq<char>>>)>,
    t: Seq<char>,
    g: Seq<Seq<char>>,
) -> Seq<(Seq<char>, Seq<Seq<Seq<char>>>)> {
    let i = find_key(defs, t);
    if i == -1 {
        defs.push((t, seq![g]))
    } else {
        defs.update(i, (t, defs[i].1.push(g)))
    }
}

/// The definition mapping built from the raw `d` items, in order.
pub open spec fn defs_of_items(items: Seq<JsonValue>) -> Seq<(Seq<char>, Seq<Seq<Seq<char>>>)>
    decreases items.len(),
{
    if items.len() == 0 {
        Seq::empty()
    } else {
        add_group(
            defs_of_items(items.drop_last()),
            tag_of(items.last()),
            group_of(items.last()),
        )
    }
}

/// The definitions of a sense: built from the array under `d`, absent on
/// any other shape.
pub open spec fn definitions_of(sense: JsonValue) -> Option<Seq<(Seq<char>, Seq<Seq<Seq<char>>>)>> {
    match lookup(sense, "d"@) {
        Some(JsonValue::Array(a)) => Some(defs_of_items(a@)),
        _ => None,
    }
}

/// A translation pair added to the table: an existing language code keeps
/// its place and its strings are replaced; a new one is appended.
pub open spec fn upsert(
    t: Seq<(Seq<char>, Seq<Seq<char>>)>,
    k: Seq<char>,
    v: Seq<Seq<char>>,
) -> Seq<(Seq<char>, Seq<Seq<char>>)> {
    let i = find_key(t, k);
    if i == -1 {
        t.push((k, v))
    } else {
        t.update(i, (k, v))
    }
}

/// The translation table built from the object's pairs, in order; the
/// whole table is absent if any value is not an array of strings.
pub open spec fn trans_pairs(pairs: Seq<(String, JsonValue)>) -> Option<
    Seq<(Seq<char>, Seq<Seq<char>>)>,
>
    decreases pairs.len(),
{
    if pairs.len() == 0 {
        Some(Seq::empty())
    } else {
        match trans_pairs(pairs.drop_last()) {
            Some(acc) => match pairs.last().1 {
                JsonValue::Array(a) => if all_strings(a@) {
                    Some(upsert(acc, pairs.last().0@, strings_of(a@)))
                } else {
                    None
                },
                _ => None,
            },
            None => None,
        }
    }
}

/// The translations of a response: built from the object under
/// `translation`, absent when that key is missing or the shape is wrong.
pub open spec fn translations_of(json: JsonValue) -> Option<Seq<(Seq<char>, Seq<Seq<char>>)>> {
    match lookup(json, "translation"@) {
        Some(JsonValue::Object(pairs)) => trans_pairs(pairs@),
        _ => None,
    }
}

/// A pair whose value is not an array of strings spoils the whole table.
proof fn lemma_trans_bad(pairs: Seq<(String, JsonValue)>, i: int)
    requires
        0 <= i < pairs.len(),
        !(pairs[i].1 matches JsonValue::Array(a) && all_strings(a@)),
    ensures
        trans_pairs(pairs) is None,
    decreases pairs.len(),
{
    if i < pairs.len() - 1 {
        lemma_trans_bad(pairs.drop_last(), i);
    }
}

/// The translation table of a raw response object.
pub fn get_translations(json: &JsonValue) -> (r: Option<IndexMap<String, Vec<String>>>)
    ensures
        r is Some <==> translations_of(*json) is Some,
        r matches Some(m) ==> Some(tmap_entries(m)) == translations_of(*json),
{
    let pairs = match json.get("translation") {
        Some(JsonValue::Object(pairs)) => pairs,
        _ => { return None },
    };
    let mut m = tmap_new();
    let n = pairs.len();
    let mut idx: usize = 0;
    proof {
        assert(pairs@.take(0) =~= Seq::<(String, JsonValue)>::empty());
    }
    while idx < n
        invariant
            0 <= idx <= n,
            n == pairs@.len(),
            lookup(*json, "translation"@) == Some(JsonValue::Object(*pairs)),
            Some(tmap_entries(m)) == trans_pairs(pairs@.take(idx as int)),
            distinct_keys(tmap_entries(m)),
        decreases n - idx,
    {
        proof {
            assert(pairs@.take(idx + 1).drop_last() =~= pairs@.take(idx as int));
            assert(pairs@.take(idx + 1).last() == pairs@[idx as int]);
        }
        let a = match &pairs[idx].1 {
            JsonValue::Array(a) => a,
            _ => {
                proof {
                    lemma_trans_bad(pairs@, idx as int);
                }
                return None;
            },
        };
        let mut lv: Vec<String> = Vec::new();
        let an = a.len();
        let mut j: usize = 0;
        proof {
            assert(a@.take(0) =~= Seq::<JsonValue>::empty());
            assert(lv.deep_view() =~= strings_of(a@.take(0)));
        }
        while j < an
            invariant
                0 <= j <= an,
                an == a@.len(),
                pairs@[idx as int].1 == JsonValue::Array(*a),
                0 <= idx < pairs@.len(),
                lookup(*json, "translation"@) == Some(JsonValue::Object(*pairs)),
                all_strings(a@.take(j as int)),
                lv.deep_view() == strings_of(a@.take(j as int)),
            decreases an - j,
        {
            proof {
                assert(a@.take(j + 1).drop_last() =~= a@.take(j as int));
                assert(a@.take(j + 1).last() == a@[j as int]);
            }
            match &a[j] {
                JsonValue::Str(s) => {
                    let ghost before = lv.deep_view();
                    lv.push(s.clone());
                    proof {
                        assert(lv.deep_view() =~= before.push(s@));
                        assert(forall|q: int|
                            0 <= q < j + 1 ==> (#[trigger] a@.take(j + 1)[q]) == a@[q]);
                    }
                },
                _ => {
                    proof {
                        lemma_trans_bad(pairs@, idx as int);
                    }
                    return None;
                },
            }
            j = j + 1;
        }
        proof {
            assert(a@.take(an as int) =~= a@);
        }
        let lang = pairs[idx].0.clone();
        let ghost pre = tmap_entries(m);
        proof {
            lemma_find_key(pre, lang@);
        }
        let ghost fi = find_key(pre, lang@);
        tmap_insert(&mut m, lang, lv);
        proof {
            if fi == -1 {
                assert(tmap_entries(m) == pre.push((pairs@[idx as int].0@, strings_of(a@))));
                assert(distinct_keys(tmap_entries(m))) by {
                    assert(forall|p: int|
                        0 <= p < pre.len() ==> (#[trigger] tmap_entries(m)[p]) == pre[p]);
                }
            } else {
                assert(tmap_entries(m) == pre.update(fi, (pairs@[idx as int].0@, strings_of(a@))));
                assert(distinct_keys(tmap_entries(m))) by {
                    assert(forall|p: int|
                        0 <= p < pre.len() ==> (#[trigger] tmap_entries(m)[p]).0 == pre[p].0);
                }
            }
            assert(Some(tmap_entries(m)) == trans_pairs(pairs@.take(idx + 1)));
        }
        idx = idx + 1;
    }
    proof {
        assert(pairs@.take(n as int) =~= pairs@);
    }
    Some(m)
}

/// The headword senses: the array under `h`, empty on any other shape.
pub open spec fn senses_of(json: JsonValue) -> Seq<JsonValue> {
    match lookup(json, "h"@) {
        Some(JsonValue::Array(a)) => a@,
        _ => Seq::empty(),
    }
}

/// The senses array under `h`, when the response carries one.
pub fn get_h<'a>(json: &'a JsonValue) -> (r: Option<&'a Vec<JsonValue>>)
    ensures
        match r {
            Some(v) => lookup(*json, "h"@) == Some(JsonValue::Array(*v)) && senses_of(*json)
                == v@,
            None => !(lookup(*json, "h"@) matches Some(JsonValue::Array(_))) && senses_of(
                *json,
            ).len() == 0,
        },
{
    match json.get("h") {
        Some(JsonValue::Array(v)) => Some(v),
        _ => None,
    }
}

/// The pinyin field of one sense object.
pub fn get_pinyin(sense: &JsonValue) -> (r: Option<String>)
    ensures
        r.deep_view() == pinyin_of(*sense),
{
    match sense.get("p") {
        Some(JsonValue::Str(s)) => Some(s.clone()),
        _ => None,
    }
}

/// The bopomofo field of one sense object.
pub fn get_bopomofo(sense: &JsonValue) -> (r: Option<String>)
    ensures
        r.deep_view() == bopomofo_of(*sense),
{
    match sense.get("b") {
        Some(JsonValue::Str(s)) => Some(s.clone()),
        _ => None,
    }
}

/// Appends to the group the strings of the array under `key`, if the item
/// holds one.
fn push_list_strings(g: &mut Vec<String>, item: &JsonValue, key: &str)
    ensures
        final(g).deep_view() == old(g).deep_view() + list_strings(*item, key@),
{
    match item.get(key) {
        Some(JsonValue::Array(a)) => {
            let ghost pre = g.deep_view();
            let n = a.len();
            let mut i: usize = 0;
            proof {
                assert(pre + strings_of(a@.take(0)) =~= pre);
            }
            while i < n
                invariant
                    0 <= i <= n,
                    n == a@.len(),
                    g.deep_view() == pre + strings_of(a@.take(i as int)),
                decreases n - i,
            {
                proof {
                    assert(a@.take(i + 1).drop_last() =~= a@.take(i as int));
                    assert(a@.take(i + 1).last() == a@[i as int]);
                }
                match &a[i] {
                    JsonValue::Str(s) => {
                        let ghost before = g.deep_view();
                        g.push(s.clone());
                        proof {
                            assert(g.deep_view() =~= before.push(s@));
                        }
                    },
                    _ => {},
                }
                i = i + 1;
            }
            proof {
                assert(a@.take(n as int) =~= a@);
            }
        },
        _ => {
            proof {
                assert(old(g).deep_view() + list_strings(*item, key@) =~= old(g).deep_view());
            }
        },
    }
}

/// How one normalized entry relates to its raw sense object: each field is
/// the value its extraction rule gives, absent exactly when that rule
/// fails.
pub open spec fn item_matches(e: MoedictItemResult, sense: JsonValue) -> bool {
    &&& e.pinyin.deep_view() == pinyin_of(sense)
    &&& e.bopomofo.deep_view() == bopomofo_of(sense)
    &&& match (e.defination, definitions_of(sense)) {
        (Some(m), Some(d)) => dmap_entries(m) == d,
        (None, None) => true,
        _ => false,
    }
}

/// How a normalized result relates to the raw response object: one entry
/// per headword sense, in order, and the translation table when its shape
/// is right.
pub open spec fn result_matches(r: MoedictResult, json: JsonValue) -> bool {
    &&& r.moedict_item_result@.len() == senses_of(json).len()
    &&& forall|i: int|
        0 <= i < senses_of(json).len() ==> item_matches(
            #[trigger] r.moedict_item_result@[i],
            senses_of(json)[i],
        )
    &&& match (r.translation, translations_of(json)) {
        (Some(m), Some(t)) => tmap_entries(m) == t,
        (None, None) => true,
        _ => false,
    }
}

/// The definitions of one sense object, grouped by part-of-speech tag.
pub fn get_defination(sense: &JsonValue) -> (r: Option<IndexMap<String, Vec<Vec<String>>>>)
    ensures
        r is Some <==> definitions_of(*sense) is Some,
        r matches Some(m) ==> Some(dmap_entries(m)) == definitions_of(*sense),
{
    let d = match sense.get("d") {
        Some(JsonValue::Array(items)) => items,
        _ => { return None },
    };
    let mut m = dmap_new();
    let n = d.len();
    let mut idx: usize = 0;
    proof {
        assert(d@.take(0) =~= Seq::<JsonValue>::empty());
    }
    while idx < n
        invariant
            0 <= idx <= n,
            n == d@.len(),
            dmap_entries(m) == defs_of_items(d@.take(idx as int)),
            distinct_keys(dmap_entries(m)),
        decreases n - idx,
    {
        let item = &d[idx];
        let tag: String = match item.get("type") {
            Some(JsonValue::Str(s)) => s.clone(),
            _ => "notype".to_owned(),
        };
        let mut g: Vec<String> = Vec::new();
        proof {
            assert(g.deep_view() =~= Seq::<Seq<char>>::empty());
        }
        match item.get("f") {
            Some(JsonValue::Str(s)) => {
                g.push(s.clone());
                proof {
                    assert(g.deep_view() =~= text_of(*item));
                }
            },
            _ => {
                proof {
                    assert(g.deep_view() =~= text_of(*item));
                }
            },
        }
        push_list_strings(&mut g, item, "q");
        push_list_strings(&mut g, item, "e");
        push_list_strings(&mut g, item, "l");
        proof {
            assert(g.deep_view() =~= group_of(*item));
        }
        let ghost pre = dmap_entries(m);
        proof {
            lemma_find_key(pre, tag@);
        }
        if dmap_contains(&m, &tag) {
            let ghost fi = find_key(pre, tag@);
            dmap_push_group(&mut m, &tag, g);
            proof {
                assert(dmap_entries(m) == pre.update(fi, (tag@, pre[fi].1.push(group_of(*item)))));
                assert(distinct_keys(dmap_entries(m))) by {
                    assert(forall|j: int|
                        0 <= j < pre.len() ==> (#[trigger] dmap_entries(m)[j]).0 == pre[j].0);
                }
            }
        } else {
            let mut first: Vec<Vec<String>> = Vec::new();
            first.push(g);
            proof {
                assert(first.deep_view() =~= seq![group_of(*item)]);
            }
            dmap_insert_new(&mut m, tag, first);
            proof {
                assert(dmap_entries(m) == pre.push((tag_of(d@[idx as int]), seq![group_of(*item)])));
            }
        }
        proof {
            assert(d@.take(idx + 1).drop_last() =~= d@.take(idx as int));
            assert(d@.take(idx + 1).last() == d@[idx as int]);
            assert(dmap_entries(m) == defs_of_items(d@.take(idx + 1)));
        }
        idx = idx + 1;
    }
    proof {
        assert(d@.take(n as int) =~= d@);
    }
    Some(m)
}

/// Reshapes a parsed response into the domain model.  Never fails as a
/// whole: every extraction step that misses leaves its own field absent
/// and the rest populated.
pub fn normalize(json: &JsonValue) -> (r: MoedictResult)
    ensures
        result_matches(r, *json),
{
    let mut moedict_item_result: Vec<MoedictItemResult> = Vec::new();
    match get_h(json) {
        Some(senses) => {
            let n = senses.len();
            let mut i: usize = 0;
            while i < n
                invariant
                    0 <= i <= n,
                    n == senses@.len(),
                    senses_of(*json) == senses@,
                    moedict_item_result@.len() == i,
                    forall|p: int|
                        0 <= p < i ==> item_matches(
                            #[trigger] moedict_item_result@[p],
                            senses@[p],
                        ),
                decreases n - i,
            {
                let sense = &senses[i];
                let defination = get_defination(sense);
                let pinyin = get_pinyin(sense);
                let bopomofo = get_bopomofo(sense);
                moedict_item_result.push(MoedictItemResult { pinyin, bopomofo, defination });
                i = i + 1;
            }
        },
        None => {},
    }
    let translation = get_translations(json);
    MoedictResult { moedict_item_result, translation }
}

/// The literal title of the service's "not found" page.
pub open spec fn not_found_marker() -> Seq<char> {
    "<title>404 Not Found</title>"@
}

/// What `get_result` returns for a raw response body: the not-found error
/// when the page is the service's 404 page, a parse failure when the
/// stripped body is not a JSON object, and the normalized model otherwise.
pub open spec fn lookup_outcome(
    raw: Seq<char>,
    keyword: Seq<char>,
    r: Result<MoedictResult, LookupError>,
) -> bool {
    let body = stripped(raw);
    if contains_seq(body, not_found_marker()) {
        r matches Err(LookupError::NotFound(k)) && k@ == keyword
    } else {
        match json_of(body) {
            Some(j) => match j {
                JsonValue::Object(_) => r matches Ok(res) && result_matches(res, j),
                _ => r matches Err(e) && e is ParseFailure,
            },
            None => r matches Err(e) && e is ParseFailure,
        }
    }
}

/// Normalizes one raw response body fetched for `keyword`: strips the
/// service's emphasis markers, recognizes its "404 Not Found" page before
/// any parsing, and otherwise parses and reshapes the JSON object.
pub fn get_result(keyword: &str, raw: &str) -> (r: Result<MoedictResult, LookupError>)
    ensures
        lookup_outcome(raw@, keyword@, r),
{
    let cs = chars_of(raw);
    let body = strip_markers(&cs);
    let marker = chars_of("<title>404 Not Found</title>");
    if find_sub(&body, &marker) {
        return Err(LookupError::NotFound(keyword.to_owned()));
    }
    match parse_text(&body) {
        Some(j) => match &j {
            JsonValue::Object(_) => Ok(normalize(&j)),
            _ => Err(LookupError::ParseFailure),
        },
        None => Err(LookupError::ParseFailure),
    }
}

/// Law: a response object with no headword-senses array under `h`
/// normalizes to an empty entry list — never to an error, since
/// normalization is total.
pub proof fn lemma_missing_h_no_entries(json: JsonValue, r: MoedictResult)
    requires
        lookup(json, "h"@) is None,
        result_matches(r, json),
    ensures
        r.moedict_item_result@.len() == 0,
{
}

/// Law: a sense whose `p` field holds a number instead of a string loses
/// only its pinyin; its bopomofo and definitions still populate from their
/// own fields.
pub proof fn lemma_numeric_pinyin_isolated(e: MoedictItemResult, sense: JsonValue)
    requires
        item_matches(e, sense),
        lookup(sense, "p"@) matches Some(p) && p is Number,
    ensures
        e.pinyin is None,
        match lookup(sense, "b"@) {
            Some(JsonValue::Str(s)) => e.bopomofo matches Some(t) && t@ == s@,
            _ => true,
        },
        match lookup(sense, "d"@) {
            Some(JsonValue::Array(a)) => e.defination is Some,
            _ => true,
        },
{
}

} // verus!
