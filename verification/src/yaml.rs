//! The YAML scalar reading that the patch editors and the settings check
//! rely on, taken from `serde_yaml`.

use vstd::prelude::*;

verus! {

/// What a YAML document read as a single value turned out to be, as far as
/// the callers distinguish: a string, a boolean, or anything else.
#[derive(Debug)]
pub enum YamlScalar {
    Text(String),
    Flag(bool),
    Other,
}

/// The mathematical reading of a [`YamlScalar`].
pub enum YamlScalarView {
    Text(Seq<char>),
    Flag(bool),
    Other,
}

impl YamlScalar {
    pub open spec fn view(&self) -> YamlScalarView {
        match self {
            YamlScalar::Text(s) => YamlScalarView::Text(s@),
            YamlScalar::Flag(b) => YamlScalarView::Flag(*b),
            YamlScalar::Other => YamlScalarView::Other,
        }
    }
}

/// The value `serde_yaml::from_str::<serde_yaml::Value>` reads from a text:
/// `Ok` with the kind of value, or `Err` with the parser's message.
pub uninterp spec fn yaml_value(text: Seq<char>) -> Result<YamlScalarView, Seq<char>>;

/// The reading of a result of [`parse_yaml_value`].
pub open spec fn yaml_result_view(r: Result<YamlScalar, String>) -> Result<YamlScalarView, Seq<char>> {
    match r {
        Ok(v) => Ok(v.view()),
        Err(e) => Err(e@),
    }
}

/// Calls `serde_yaml::from_str::<serde_yaml::Value>` and reports which kind
/// of value came back (string, boolean, anything else) or the error message.
/// Trusted: the result is taken to be a function of the text alone
/// ([`yaml_value`]); which text reads as which value is not stated here.
#[verifier::external_body]
pub fn parse_yaml_value(text: &str) -> (r: Result<YamlScalar, String>)
    ensures
        yaml_result_view(r) == yaml_value(text@),
{
    match serde_yaml::from_str::<serde_yaml::Value>(text) {
        Ok(serde_yaml::Value::String(s)) => Ok(YamlScalar::Text(s)),
        Ok(serde_yaml::Value::Bool(b)) => Ok(YamlScalar::Flag(b)),
        Ok(_) => Ok(YamlScalar::Other),
        Err(e) => Err(e.to_string()),
    }
}

} // verus!
