//! The JSON readings the session codec relies on, taken from `serde_json`:
//! a record's top-level fields as plain values, and the few facts a log row
//! contributes to its event count.

use vstd::prelude::*;

verus! {

/// A top-level JSON field's value, as far as the header checks distinguish:
/// a string, a non-negative integer that fits `u64`, a boolean, or anything
/// else.
#[derive(Debug)]
pub enum JsonScalar {
    Str(String),
    UInt(u64),
    Bool(bool),
    Other,
}

/// The mathematical reading of a [`JsonScalar`].
pub enum JsonScalarView {
    Str(Seq<char>),
    UInt(nat),
    Bool(bool),
    Other,
}

impl JsonScalar {
    pub open spec fn view(&self) -> JsonScalarView {
        match self {
            JsonScalar::Str(s) => JsonScalarView::Str(s@),
            JsonScalar::UInt(n) => JsonScalarView::UInt(*n as nat),
            JsonScalar::Bool(b) => JsonScalarView::Bool(*b),
            JsonScalar::Other => JsonScalarView::Other,
        }
    }
}

/// The fields of a JSON object, in the map's iteration order.
pub open spec fn fields_view(v: Seq<(String, JsonScalar)>) -> Seq<(Seq<char>, JsonScalarView)> {
    v.map_values(|p: (String, JsonScalar)| (p.0@, p.1.view()))
}

/// No key occurs twice.
pub open spec fn keys_distinct(f: Seq<(Seq<char>, JsonScalarView)>) -> bool {
    forall|i: int, j: int| 0 <= i < j < f.len() ==> #[trigger] f[i].0 != #[trigger] f[j].0
}

/// What `serde_json::from_str::<serde_json::Value>` reads from a text: the
/// fields of an object (`Some`), some other JSON value (`None`), or the
/// parser's message.
pub uninterp spec fn json_object_fields(text: Seq<char>) -> Result<
    Option<Seq<(Seq<char>, JsonScalarView)>>,
    Seq<char>,
>;

pub open spec fn object_result_view(r: Result<Option<Vec<(String, JsonScalar)>>, String>) -> Result<
    Option<Seq<(Seq<char>, JsonScalarView)>>,
    Seq<char>,
> {
    match r {
        Ok(Some(v)) => Ok(Some(fields_view(v@))),
        Ok(None) => Ok(None),
        Err(e) => Err(e@),
    }
}

/// Calls `serde_json::from_str::<serde_json::Value>` and, for an object,
/// lists its fields with their kinds. Trusted: the result is a function of
/// the text ([`json_object_fields`]); an object's keys are distinct, since
/// `serde_json::Map` is a map.
#[verifier::external_body]
pub fn parse_json_object(text: &str) -> (r: Result<Option<Vec<(String, JsonScalar)>>, String>)
    ensures
        object_result_view(r) == json_object_fields(text@),
        match r {
            Ok(Some(v)) => keys_distinct(fields_view(v@)),
            _ => true,
        },
{
    match serde_json::from_str::<serde_json::Value>(text) {
        Ok(serde_json::Value::Object(m)) => Ok(Some(m.into_iter().map(|(k, v)| (k, match v {
            serde_json::Value::String(s) => JsonScalar::Str(s),
            serde_json::Value::Bool(b) => JsonScalar::Bool(b),
            serde_json::Value::Number(n) => n.as_u64().map_or(JsonScalar::Other, JsonScalar::UInt),
            _ => JsonScalar::Other,
        })).collect())),
        Ok(_) => Ok(None),
        Err(e) => Err(e.to_string()),
    }
}

/// The facts a stored log row contributes to its event count.
#[derive(Debug)]
pub struct RowFacts {
    /// `type`, when it is a string.
    pub kind: Option<String>,
    /// `seq`, when it is a `u64`.
    pub seq: Option<u64>,
    /// `seq0`, when it is a `u64`.
    pub seq0: Option<u64>,
    /// The length of `data.args`, when it is an array.
    pub args_len: Option<usize>,
    /// The length of `data.texts`, when it is an array.
    pub texts_len: Option<usize>,
}

/// The mathematical reading of [`RowFacts`].
pub struct RowFactsView {
    pub kind: Option<Seq<char>>,
    pub seq: Option<nat>,
    pub seq0: Option<nat>,
    pub args_len: Option<nat>,
    pub texts_len: Option<nat>,
}

impl RowFacts {
    pub open spec fn view(&self) -> RowFactsView {
        RowFactsView {
            kind: match self.kind {
                Some(s) => Some(s@),
                None => None,
            },
            seq: match self.seq {
                Some(n) => Some(n as nat),
                None => None,
            },
            seq0: match self.seq0 {
                Some(n) => Some(n as nat),
                None => None,
            },
            args_len: match self.args_len {
                Some(n) => Some(n as nat),
                None => None,
            },
            texts_len: match self.texts_len {
                Some(n) => Some(n as nat),
                None => None,
            },
        }
    }
}

/// What `serde_json::from_str::<serde_json::Value>` reads from a row line:
/// its count-relevant facts, or the parser's message.
pub uninterp spec fn json_row_facts(text: Seq<char>) -> Result<RowFactsView, Seq<char>>;

pub open spec fn row_result_view(r: Result<RowFacts, String>) -> Result<RowFactsView, Seq<char>> {
    match r {
        Ok(f) => Ok(f.view()),
        Err(e) => Err(e@),
    }
}

/// Calls `serde_json::from_str::<serde_json::Value>` on a row line and reads
/// `type`, `seq`, `seq0` and the lengths of `data.args` and `data.texts`.
/// Trusted: the result is a function of the text ([`json_row_facts`]).
#[verifier::external_body]
pub fn parse_json_row(text: &str) -> (r: Result<RowFacts, String>)
    ensures
        row_result_view(r) == json_row_facts(text@),
{
    let row: serde_json::Value = serde_json::from_str(text).map_err(|e| e.to_string())?;
    let len = |k: &str| row.get("data").and_then(|d| d.get(k)).and_then(|v| v.as_array()).map(|a| a.len());
    Ok(RowFacts {
        kind: row.get("type").and_then(|v| v.as_str()).map(|s| s.to_owned()),
        seq: row.get("seq").and_then(|v| v.as_u64()),
        seq0: row.get("seq0").and_then(|v| v.as_u64()),
        args_len: len("args"),
        texts_len: len("texts"),
    })
}

/// What `serde_json::from_str::<serde_json::Value>` reads as the object
/// stored under a top-level key: its members, each with its value when that
/// is a string (`None` when the text is no object or the member is not an
/// object), or the parser's message.
pub uninterp spec fn json_object_member(text: Seq<char>, key: Seq<char>) -> Result<
    Option<Seq<(Seq<char>, Option<Seq<char>>)>>,
    Seq<char>,
>;

pub open spec fn members_view(v: Seq<(String, Option<String>)>) -> Seq<(Seq<char>, Option<Seq<char>>)> {
    v.map_values(
        |p: (String, Option<String>)|
            (
                p.0@,
                match p.1 {
                    Some(s) => Some(s@),
                    None => None,
                },
            ),
    )
}

pub open spec fn member_result_view(r: Result<Option<Vec<(String, Option<String>)>>, String>) -> Result<
    Option<Seq<(Seq<char>, Option<Seq<char>>)>>,
    Seq<char>,
> {
    match r {
        Ok(Some(v)) => Ok(Some(members_view(v@))),
        Ok(None) => Ok(None),
        Err(e) => Err(e@),
    }
}

/// Calls `serde_json::from_str::<serde_json::Value>` and lists the members
/// of the object under `key`. Trusted: the result is a function of the
/// text and the key ([`json_object_member`]).
#[verifier::external_body]
pub fn parse_json_member_object(text: &str, key: &str) -> (r: Result<Option<Vec<(String, Option<String>)>>, String>)
    ensures
        member_result_view(r) == json_object_member(text@, key@),
{
    let value: serde_json::Value = serde_json::from_str(text).map_err(|e| e.to_string())?;
    Ok(value.get(key).and_then(|d| d.as_object()).map(|m| {
        m.iter().map(|(k, v)| (k.clone(), v.as_str().map(|s| s.to_owned()))).collect()
    }))
}

} // verus!
