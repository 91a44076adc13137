use vstd::prelude::*;

verus! {

/// The field of an edge that a clause tests.
#[derive(Clone, Copy, Debug, PartialEq, Eq, Structural)]
pub enum SubCondition {
    Version,
}

impl SubCondition {
    /// The field named by a query word.
    pub fn try_from_token(input: &str) -> (r: Option<Self>)
        ensures
            r is Some <==> input@ == "version"@,
    {
        if str_eq(input, "version") {
            Some(SubCondition::Version)
        } else {
            None
        }
    }
}

/// How a clause compares the field with its value.
#[derive(Clone, Copy, Debug, PartialEq, Eq, Structural)]
pub enum Operator {
    Equals,
}

/// How two clauses combine.
#[derive(Clone, Copy, Debug, PartialEq, Eq, Structural)]
pub enum Conjunction {
    And,
    Or,
}

impl Conjunction {
    /// Whether a query word is a conjunction.
    pub fn is_valid(conjunction: &str) -> (r: bool)
        ensures
            r <==> conjunction@ == "and"@ || conjunction@ == "AND"@ || conjunction@ == "or"@ || conjunction@ == "OR"@,
    {
        str_eq(conjunction, "and") || str_eq(conjunction, "AND") || str_eq(conjunction, "or") || str_eq(conjunction, "OR")
    }
}

/// Whether two strings hold the same characters.
pub fn str_eq(a: &str, b: &str) -> (r: bool)
    ensures
        r <==> a@ == b@,
{
    crate::order::compare_names(a, b) == 0
}

/// A semver requirement, as semver reads it and writes it back; `None` for
/// text that is no requirement.
pub uninterp spec fn canonical_requirement(s: Seq<char>) -> Option<Seq<char>>;

/// Relies on `semver::VersionReq::parse` and on the requirement's `Display`:
/// the text of a requirement that parses, as semver writes it.
#[verifier::external_body]
fn canonical_requirement_of(s: &str) -> (r: Option<String>)
    ensures
        match r {
            Some(c) => canonical_requirement(s@) == Some(c@),
            None => canonical_requirement(s@) is None,
        },
{
    match semver::VersionReq::parse(s) {
        Ok(req) => Some(req.to_string()),
        Err(_) => None,
    }
}

/// The value of a clause: a version requirement, held as semver writes it,
/// or plain text.
#[derive(Clone, Debug)]
pub enum PanelValue {
    Crate(String),
    Semver(String),
}

impl PanelValue {
    /// A requirement where the word parses as one, else the word itself.
    pub fn try_from_token(token: &str) -> (r: Self)
        ensures
            match canonical_requirement(token@) {
                Some(c) => r matches PanelValue::Semver(v) && v@ == c,
                None => r matches PanelValue::Crate(v) && v@ == token@,
            },
    {
        match canonical_requirement_of(token) {
            Some(c) => PanelValue::Semver(c),
            None => PanelValue::Crate(token.to_string()),
        }
    }
}

/// A clause on the edges of a traversal: `{field, operator, value}`.
#[derive(Clone, Debug)]
pub struct WhereClause {
    pub sub_condition: SubCondition,
    pub operator: Option<Operator>,
    pub parameter: PanelValue,
}

/// Whether an edge whose requirement is written `version` and reads, by
/// semver, as `canonical` satisfies the clause: the clause's requirement is
/// the edge's one, or its text is the edge's text.
pub open spec fn clause_matches(c: WhereClause, version: Seq<char>, canonical: Option<Seq<char>>) -> bool {
    match c.parameter {
        PanelValue::Semver(v) => canonical == Some(v@),
        PanelValue::Crate(t) => version == t@,
    }
}

/// Whether an edge with the requirement `version` satisfies the clause; an
/// edge without a requirement does not.
pub open spec fn clause_admits(c: WhereClause, version: Option<Seq<char>>) -> bool {
    match version {
        Some(v) => clause_matches(c, v, canonical_requirement(v)),
        None => false,
    }
}

impl WhereClause {
    pub fn new(sub_condition: SubCondition, operator: Option<Operator>, parameter: PanelValue) -> (r: Self)
        ensures
            r.sub_condition == sub_condition,
            r.operator == operator,
            r.parameter == parameter,
    {
        WhereClause { sub_condition, operator, parameter }
    }

    /// The clause's verdict on a requirement written `version` that semver
    /// reads as `canonical`.
    pub fn matches_requirement(&self, version: &str, canonical: Option<&str>) -> (r: bool)
        ensures
            r == clause_matches(*self, version@, match canonical {
                Some(c) => Some(c@),
                None => None,
            }),
    {
        match &self.parameter {
            PanelValue::Semver(v) => match canonical {
                Some(c) => str_eq(c, v.as_str()),
                None => false,
            },
            PanelValue::Crate(t) => str_eq(version, t.as_str()),
        }
    }

    /// The clause's verdict on an edge's requirement.
    pub fn admits(&self, version: &Option<String>) -> (r: bool)
        ensures
            r == clause_admits(*self, crate::store::opt_view(*version)),
    {
        match version {
            Some(v) => {
                let c = canonical_requirement_of(v.as_str());
                match c {
                    Some(c) => self.matches_requirement(v.as_str(), Some(c.as_str())),
                    None => self.matches_requirement(v.as_str(), None),
                }
            }
            None => false,
        }
    }
}

/// A word of a clause, once read.
#[derive(Clone, Debug)]
pub enum ParseType {
    SubCondition(SubCondition),
    Operator(Operator),
    Value(PanelValue),
}

impl WhereClause {
    /// The clause of a field, an optional operator and a value, read in that
    /// order; `None` where a word stands in the wrong place.
    pub fn from_parse_types(sub_condition: ParseType, operator: Option<ParseType>, parameter: ParseType) -> (r: Option<Self>)
        ensures
            r is Some <==> (sub_condition is SubCondition && parameter is Value
                && (operator matches Some(o) ==> o is Operator)),
            r matches Some(c) ==> {
                &&& sub_condition == ParseType::SubCondition(c.sub_condition)
                &&& parameter == ParseType::Value(c.parameter)
                &&& match operator {
                    Some(o) => o == ParseType::Operator(c.operator->Some_0) && c.operator is Some,
                    None => c.operator is None,
                }
            },
    {
        match (sub_condition, operator, parameter) {
            (ParseType::SubCondition(subc), Some(ParseType::Operator(op)), ParseType::Value(param)) => {
                Some(WhereClause::new(subc, Some(op), param))
            }
            (ParseType::SubCondition(subc), None, ParseType::Value(param)) => Some(WhereClause::new(subc, None, param)),
            _ => None,
        }
    }
}

} // verus!
