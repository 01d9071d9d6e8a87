//! The answers of the exchange, and how they are read from documents.

use vstd::prelude::*;
use crate::error::RestError;
use crate::json::Json;
use crate::table::{distinct, lemma_position, position, texts, Table, TableView};

verus! {

/// One asset of the exchange, stored under the exchange's code for it.
#[derive(Clone, Debug)]
pub struct Asset {
    pub aclass: String,
    /// The short display name, such as `XBT`.
    pub altname: String,
    pub decimals: u32,
    pub display_decimals: u32,
}

/// One tradable pair, stored under the exchange's code for it.
#[derive(Clone, Debug)]
pub struct AssetPair {
    /// The readable name of the pair, of the shape `BASE/QUOTE`.
    pub wsname: String,
    /// The exchange's code for the base currency.
    pub base: String,
    /// The exchange's code for the quote currency.
    pub quote: String,
}

/// The ticker snapshot of one pair.
#[derive(Clone, Debug)]
pub struct Info {
    /// Last trade: the price first.
    pub c: Vec<String>,
    /// Volume: today, then the last 24 hours.
    pub v: Vec<String>,
    /// Volume-weighted average price: today, then the last 24 hours.
    pub p: Vec<String>,
    /// Number of trades: today, then the last 24 hours.
    pub t: Vec<u32>,
}

/// The answer of the upstream's `Assets` endpoint.
#[derive(Clone, Debug)]
pub struct Assets {
    pub error: Vec<String>,
    pub result: Table<Asset>,
}

/// The answer of the upstream's `AssetPairs` endpoint.
#[derive(Clone, Debug)]
pub struct AssetPairs {
    pub error: Vec<String>,
    pub result: Table<AssetPair>,
}

/// The answer of the upstream's `Ticker` endpoint.
#[derive(Clone, Debug)]
pub struct Tickers {
    pub error: Vec<String>,
    pub result: Table<Info>,
}

/// What an `Asset` holds.
pub struct AssetView {
    pub aclass: Seq<char>,
    pub altname: Seq<char>,
    pub decimals: u32,
    pub display_decimals: u32,
}

/// What an `AssetPair` holds.
pub struct AssetPairView {
    pub wsname: Seq<char>,
    pub base: Seq<char>,
    pub quote: Seq<char>,
}

/// What an `Info` holds.
pub struct InfoView {
    pub c: Seq<Seq<char>>,
    pub v: Seq<Seq<char>>,
    pub p: Seq<Seq<char>>,
    pub t: Seq<u32>,
}

impl View for Asset {
    type V = AssetView;

    open spec fn view(&self) -> AssetView {
        AssetView {
            aclass: self.aclass@,
            altname: self.altname@,
            decimals: self.decimals,
            display_decimals: self.display_decimals,
        }
    }
}

impl View for AssetPair {
    type V = AssetPairView;

    open spec fn view(&self) -> AssetPairView {
        AssetPairView { wsname: self.wsname@, base: self.base@, quote: self.quote@ }
    }
}

impl View for Info {
    type V = InfoView;

    open spec fn view(&self) -> InfoView {
        InfoView { c: texts(self.c@), v: texts(self.v@), p: texts(self.p@), t: self.t@ }
    }
}

impl InfoView {
    /// The lengths that the upstream gives the four sequences.
    pub open spec fn wf(self) -> bool {
        &&& self.c.len() >= 1
        &&& self.v.len() == 2
        &&& self.p.len() == 2
        &&& self.t.len() == 2
    }
}

/// The text of the member `key` of `doc`, where it is a string.
pub open spec fn member_text(doc: Json, key: Seq<char>) -> Option<Seq<char>> {
    match doc.member(key) {
        Some(Json::Text(s)) => Some(s@),
        _ => None,
    }
}

/// The number of the member `key` of `doc`, where it is a count.
pub open spec fn member_count(doc: Json, key: Seq<char>) -> Option<u32> {
    match doc.member(key) {
        Some(j) => j.count(),
        None => None,
    }
}

/// The text of `doc`, empty where it is no string.
pub open spec fn text_or_empty(doc: Json) -> Seq<char> {
    match doc {
        Json::Text(s) => s@,
        _ => Seq::empty(),
    }
}

/// The number of `doc`, zero where it is no count.
pub open spec fn count_or_zero(doc: Json) -> u32 {
    match doc.count() {
        Some(n) => n,
        None => 0,
    }
}

/// `doc` is an array of strings.
pub open spec fn is_texts(doc: Json) -> bool {
    doc matches Json::Array(items) && forall|i: int|
        0 <= i < items.len() ==> (#[trigger] items@[i]) is Text
}

/// The strings of the array `doc`.
pub open spec fn texts_of(doc: Json) -> Seq<Seq<char>> {
    match doc {
        Json::Array(items) => items@.map_values(|item: Json| text_or_empty(item)),
        _ => Seq::empty(),
    }
}

/// `doc` is an array of counts.
pub open spec fn is_counts(doc: Json) -> bool {
    doc matches Json::Array(items) && forall|i: int|
        0 <= i < items.len() ==> (#[trigger] items@[i]).count().is_some()
}

/// The counts of the array `doc`.
pub open spec fn counts_of(doc: Json) -> Seq<u32> {
    match doc {
        Json::Array(items) => items@.map_values(|item: Json| count_or_zero(item)),
        _ => Seq::empty(),
    }
}

/// The member `key` of `doc`, or `Null` where there is none.
pub open spec fn member_or_null(doc: Json, key: Seq<char>) -> Json {
    match doc.member(key) {
        Some(j) => j,
        None => Json::Null,
    }
}

/// Reads an array of strings.
pub fn decode_texts(doc: &Json) -> (r: Option<Vec<String>>)
    ensures
        match r {
            Some(found) => is_texts(*doc) && texts(found@) == texts_of(*doc),
            None => !is_texts(*doc),
        },
{
    match doc {
        Json::Array(items) => {
            let mut found: Vec<String> = Vec::new();
            let mut i: usize = 0;
            while i < items.len()
                invariant
                    i <= items.len(),
                    *doc == Json::Array(*items),
                    found.len() == i,
                    forall|j: int| 0 <= j < i ==> (#[trigger] items@[j]) is Text,
                    forall|j: int| 0 <= j < i ==> #[trigger] found@[j]@ == text_or_empty(items@[j]),
                decreases items.len() - i,
            {
                match items[i].as_text() {
                    Some(s) => {
                        found.push(s.clone());
                    },
                    None => {
                        assert(!(items@[i as int] is Text));
                        return None;
                    },
                }
                i += 1;
            }
            assert(texts(found@) == texts_of(*doc));
            Some(found)
        },
        _ => None,
    }
}

/// Reads an array of counts.
pub fn decode_counts(doc: &Json) -> (r: Option<Vec<u32>>)
    ensures
        match r {
            Some(found) => is_counts(*doc) && found@ == counts_of(*doc),
            None => !is_counts(*doc),
        },
{
    match doc {
        Json::Array(items) => {
            let mut found: Vec<u32> = Vec::new();
            let mut i: usize = 0;
            while i < items.len()
                invariant
                    i <= items.len(),
                    *doc == Json::Array(*items),
                    found.len() == i,
                    forall|j: int| 0 <= j < i ==> (#[trigger] items@[j]).count().is_some(),
                    forall|j: int| 0 <= j < i ==> #[trigger] found@[j] == count_or_zero(items@[j]),
                decreases items.len() - i,
            {
                match items[i].as_count() {
                    Some(n) => {
                        found.push(n);
                    },
                    None => {
                        assert(items@[i as int].count().is_none());
                        return None;
                    },
                }
                i += 1;
            }
            assert(found@ == counts_of(*doc));
            Some(found)
        },
        _ => None,
    }
}

/// Reads the member `key` of `doc` as a string.
pub fn decode_member_text(doc: &Json, key: &str) -> (r: Option<String>)
    ensures
        match r {
            Some(s) => member_text(*doc, key@) == Some(s@),
            None => member_text(*doc, key@).is_none(),
        },
{
    match doc.get(key) {
        Some(j) => match j.as_text() {
            Some(s) => Some(s.clone()),
            None => None,
        },
        None => None,
    }
}

/// Reads the member `key` of `doc` as a count.
pub fn decode_member_count(doc: &Json, key: &str) -> (r: Option<u32>)
    ensures
        r == member_count(*doc, key@),
{
    match doc.get(key) {
        Some(j) => j.as_count(),
        None => None,
    }
}

/// A type whose values are read from a JSON document.
pub trait Decode: Sized + View {
    /// `doc` has the shape of a value of this type.
    spec fn fits(doc: Json) -> bool;

    /// What the value read from `doc` holds, where `doc` fits.
    spec fn decoded(doc: Json) -> Self::V;

    /// Reads a value from `doc`; none where `doc` does not fit.
    fn decode(doc: &Json) -> (r: Option<Self>)
        ensures
            match r {
                Some(value) => Self::fits(*doc) && value@ == Self::decoded(*doc),
                None => !Self::fits(*doc),
            },
    ;
}

impl Decode for AssetPair {
    open spec fn fits(doc: Json) -> bool {
        &&& member_text(doc, "wsname"@).is_some()
        &&& member_text(doc, "base"@).is_some()
        &&& member_text(doc, "quote"@).is_some()
    }

    open spec fn decoded(doc: Json) -> AssetPairView {
        AssetPairView {
            wsname: member_text(doc, "wsname"@).unwrap(),
            base: member_text(doc, "base"@).unwrap(),
            quote: member_text(doc, "quote"@).unwrap(),
        }
    }

    fn decode(doc: &Json) -> (r: Option<Self>) {
        let wsname = decode_member_text(doc, "wsname")?;
        let base = decode_member_text(doc, "base")?;
        let quote = decode_member_text(doc, "quote")?;
        Some(AssetPair { wsname, base, quote })
    }
}

impl Decode for Asset {
    open spec fn fits(doc: Json) -> bool {
        &&& member_text(doc, "aclass"@).is_some()
        &&& member_text(doc, "altname"@).is_some()
        &&& member_count(doc, "decimals"@).is_some()
        &&& member_count(doc, "display_decimals"@).is_some()
    }

    open spec fn decoded(doc: Json) -> AssetView {
        AssetView {
            aclass: member_text(doc, "aclass"@).unwrap(),
            altname: member_text(doc, "altname"@).unwrap(),
            decimals: member_count(doc, "decimals"@).unwrap(),
            display_decimals: member_count(doc, "display_decimals"@).unwrap(),
        }
    }

    fn decode(doc: &Json) -> (r: Option<Self>) {
        let aclass = decode_member_text(doc, "aclass")?;
        let altname = decode_member_text(doc, "altname")?;
        let decimals = decode_member_count(doc, "decimals")?;
        let display_decimals = decode_member_count(doc, "display_decimals")?;
        Some(Asset { aclass, altname, decimals, display_decimals })
    }
}

impl Decode for Info {
    open spec fn fits(doc: Json) -> bool {
        &&& doc.member("c"@) matches Some(c) && is_texts(c)
        &&& doc.member("v"@) matches Some(v) && is_texts(v)
        &&& doc.member("p"@) matches Some(p) && is_texts(p)
        &&& doc.member("t"@) matches Some(t) && is_counts(t)
        &&& Self::decoded(doc).wf()
    }

    open spec fn decoded(doc: Json) -> InfoView {
        InfoView {
            c: texts_of(member_or_null(doc, "c"@)),
            v: texts_of(member_or_null(doc, "v"@)),
            p: texts_of(member_or_null(doc, "p"@)),
            t: counts_of(member_or_null(doc, "t"@)),
        }
    }

    fn decode(doc: &Json) -> (r: Option<Self>) {
        let c = decode_texts(doc.get("c")?)?;
        let v = decode_texts(doc.get("v")?)?;
        let p = decode_texts(doc.get("p")?)?;
        let t = decode_counts(doc.get("t")?)?;
        if c.len() >= 1 && v.len() == 2 && p.len() == 2 && t.len() == 2 {
            Some(Info { c, v, p, t })
        } else {
            None
        }
    }
}

/// The keys of the members of an object.
pub open spec fn member_keys(members: Seq<(String, Json)>) -> Seq<Seq<char>> {
    members.map_values(|m: (String, Json)| m.0@)
}

/// `doc` is an object whose keys differ and whose values all fit `V`.
pub open spec fn table_fits<V: Decode>(doc: Json) -> bool {
    doc matches Json::Object(members) && distinct(member_keys(members@)) && forall|i: int|
        0 <= i < members.len() ==> V::fits((#[trigger] members@[i]).1)
}

/// What the table read from the object `doc` holds: its members, in order.
pub open spec fn table_of<V: Decode>(doc: Json) -> TableView<V::V> {
    match doc {
        Json::Object(members) => TableView {
            keys: member_keys(members@),
            values: members@.map_values(|m: (String, Json)| V::decoded(m.1)),
        },
        _ => TableView { keys: Seq::empty(), values: Seq::empty() },
    }
}

/// Reads an object as a table: every member becomes an entry. An object
/// with a key twice, or with a member that does not fit, is refused.
pub fn decode_table<V: Decode>(doc: &Json) -> (r: Option<Table<V>>)
    ensures
        match r {
            Some(table) => table_fits::<V>(*doc) && table@ == table_of::<V>(*doc) && table.wf(),
            None => !table_fits::<V>(*doc),
        },
{
    match doc {
        Json::Object(members) => {
            let mut table: Table<V> = Table::new();
            let mut i: usize = 0;
            while i < members.len()
                invariant
                    i <= members.len(),
                    *doc == Json::Object(*members),
                    table.wf(),
                    table.keys() == member_keys(members@).take(i as int),
                    table.values().len() == i,
                    forall|j: int| 0 <= j < i ==> V::fits((#[trigger] members@[j]).1),
                    forall|j: int|
                        0 <= j < i ==> (#[trigger] table.values()[j])@ == V::decoded(members@[j].1),
                decreases members.len() - i,
            {
                let ghost keys = member_keys(members@);
                let ghost before = table.values();
                if table.contains_key(&members[i].0) {
                    proof {
                        lemma_position(table.keys(), members@[i as int].0@);
                        let k = position(table.keys(), members@[i as int].0@)->0;
                        assert(keys[k] == keys[i as int]);
                    }
                    return None;
                }
                match V::decode(&members[i].1) {
                    Some(value) => {
                        table.insert(members[i].0.clone(), value);
                        assert(keys.take(i as int).push(keys[i as int]) == keys.take(i + 1));
                        assert forall|j: int| 0 <= j < i + 1 implies (#[trigger] table.values()[j])@
                            == V::decoded(members@[j].1) by {
                            if j < i {
                                assert(table.values()[j] == before[j]);
                            }
                        }
                    },
                    None => {
                        return None;
                    },
                }
                i += 1;
            }
            proof {
                let keys = member_keys(members@);
                assert(keys.take(members.len() as int) == keys);
                assert(table@.values == table_of::<V>(*doc).values);
            }
            Some(table)
        },
        _ => None,
    }
}

/// `doc` is an answer without errors: its member `error` is an empty array.
pub open spec fn no_errors(doc: Json) -> bool {
    doc.member("error"@) matches Some(Json::Array(items)) && items.len() == 0
}

/// `doc` is an answer without errors whose `result` fits a table of `V`.
pub open spec fn answer_fits<V: Decode>(doc: Json) -> bool {
    &&& no_errors(doc)
    &&& doc.member("result"@) matches Some(result) && table_fits::<V>(result)
}

/// What the `result` of the answer `doc` holds.
pub open spec fn answer_of<V: Decode>(doc: Json) -> TableView<V::V> {
    table_of::<V>(member_or_null(doc, "result"@))
}

/// Reads the `result` of an answer. An answer that reports errors, and one
/// of another shape, is refused.
pub fn decode_answer<V: Decode>(doc: &Json) -> (r: Result<Table<V>, RestError>)
    ensures
        match r {
            Ok(table) => answer_fits::<V>(*doc) && table@ == answer_of::<V>(*doc) && table.wf(),
            Err(e) => e == RestError::Decode && !answer_fits::<V>(*doc),
        },
{
    match doc.get("error") {
        Some(Json::Array(items)) => {
            if items.len() != 0 {
                return Err(RestError::Decode);
            }
        },
        _ => {
            return Err(RestError::Decode);
        },
    }
    match doc.get("result") {
        Some(result) => match decode_table::<V>(result) {
            Some(table) => Ok(table),
            None => Err(RestError::Decode),
        },
        None => Err(RestError::Decode),
    }
}

impl AssetPairs {
    /// Reads the answer of the `AssetPairs` endpoint.
    pub fn decode(doc: &Json) -> (r: Result<AssetPairs, RestError>)
        ensures
            match r {
                Ok(pairs) => answer_fits::<AssetPair>(*doc) && pairs.result@ == answer_of::<
                    AssetPair,
                >(*doc) && pairs.result.wf() && pairs.error@.len() == 0,
                Err(e) => e == RestError::Decode && !answer_fits::<AssetPair>(*doc),
            },
    {
        match decode_answer::<AssetPair>(doc) {
            Ok(result) => Ok(AssetPairs { error: Vec::new(), result }),
            Err(e) => Err(e),
        }
    }
}

impl Assets {
    /// Reads the answer of the `Assets` endpoint.
    pub fn decode(doc: &Json) -> (r: Result<Assets, RestError>)
        ensures
            match r {
                Ok(assets) => answer_fits::<Asset>(*doc) && assets.result@ == answer_of::<Asset>(
                    *doc,
                ) && assets.result.wf() && assets.error@.len() == 0,
                Err(e) => e == RestError::Decode && !answer_fits::<Asset>(*doc),
            },
    {
        match decode_answer::<Asset>(doc) {
            Ok(result) => Ok(Assets { error: Vec::new(), result }),
            Err(e) => Err(e),
        }
    }
}

impl Tickers {
    /// Reads the answer of the `Ticker` endpoint.
    pub fn decode(doc: &Json) -> (r: Result<Tickers, RestError>)
        ensures
            match r {
                Ok(tickers) => answer_fits::<Info>(*doc) && tickers.result@ == answer_of::<Info>(
                    *doc,
                ) && tickers.result.wf() && tickers.error@.len() == 0,
                Err(e) => e == RestError::Decode && !answer_fits::<Info>(*doc),
            },
    {
        match decode_answer::<Info>(doc) {
            Ok(result) => Ok(Tickers { error: Vec::new(), result }),
            Err(e) => Err(e),
        }
    }
}

} // verus!
