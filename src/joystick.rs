use crate::carriage::Carriage;
use crate::conditions::{canonical_requirement, str_eq, PanelValue, SubCondition, WhereClause};
use crate::store::{tree_view, UnrolledCrate};
use crate::traverse::search_spec;
use vstd::prelude::*;

verus! {

/// The words of a text, split at whitespace.
pub uninterp spec fn words_of(s: Seq<char>) -> Seq<Seq<char>>;

pub open spec fn strings_view(v: Seq<String>) -> Seq<Seq<char>> {
    v.map_values(|s: String| s@)
}

/// Relies on `str::split_whitespace`: the words of the text, in order.
#[verifier::external_body]
fn split_words(s: &str) -> (r: Vec<String>)
    ensures
        strings_view(r@) == words_of(s@),
{
    s.split_whitespace().map(String::from).collect()
}

/// A keyword of a query.
#[derive(Clone, Copy, Debug, PartialEq, Eq, Structural)]
pub enum Button {
    /// Names the crate to start from.
    Lift,
    /// Starts the clause on edges.
    Where,
}

pub open spec fn keyword(w: Seq<char>) -> Option<Button> {
    if w == "lift"@ || w == "LIFT"@ {
        Some(Button::Lift)
    } else if w == "where"@ || w == "WHERE"@ {
        Some(Button::Where)
    } else {
        None
    }
}

impl Button {
    pub fn try_from_keyword(keyword_text: &str) -> (r: Option<Self>)
        ensures
            r == keyword(keyword_text@),
    {
        if str_eq(keyword_text, "lift") || str_eq(keyword_text, "LIFT") {
            Some(Button::Lift)
        } else if str_eq(keyword_text, "where") || str_eq(keyword_text, "WHERE") {
            Some(Button::Where)
        } else {
            None
        }
    }
}

/// A word of a query: a keyword, or the words that follow one.
#[derive(Clone, Debug)]
pub enum Panel {
    Button(Button),
    TokenValue(Vec<String>),
}

impl Panel {
    pub fn try_from_keyword(keyword_text: &str) -> (r: Option<Self>)
        ensures
            match keyword(keyword_text@) {
                Some(b) => r matches Some(Panel::Button(x)) && x == b,
                None => r is None,
            },
    {
        match Button::try_from_keyword(keyword_text) {
            Some(b) => Some(Panel::Button(b)),
            None => None,
        }
    }
}

pub open spec fn panel_words(p: Panel) -> Seq<Seq<char>> {
    match p {
        Panel::TokenValue(v) => strings_view(v@),
        Panel::Button(_) => Seq::empty(),
    }
}

/// Words gathered so far: those after `lift`, those after `where`, the
/// current keyword, and the words since it.
pub type Gathered = (Option<Seq<Seq<char>>>, Option<Seq<Seq<char>>>, Option<Button>, Seq<Seq<char>>);

pub open spec fn file_group(g: Gathered) -> Gathered {
    match g.2 {
        Some(Button::Lift) => (Some(g.3), g.1, g.2, g.3),
        Some(Button::Where) => (g.0, Some(g.3), g.2, g.3),
        None => g,
    }
}

/// The words of a query gathered under their keywords: a keyword files the
/// words since the previous keyword under that one, a later group under
/// the same keyword replacing an earlier one.
pub open spec fn gather(words: Seq<Seq<char>>) -> Gathered
    decreases words.len(),
{
    if words.len() == 0 {
        (None, None, None, Seq::empty())
    } else {
        let g = gather(words.drop_last());
        let w = words.last();
        match keyword(w) {
            Some(kw) => if g.2 is Some && g.3.len() > 0 {
                let f = file_group(g);
                (f.0, f.1, Some(kw), Seq::empty())
            } else {
                (g.0, g.1, Some(kw), g.3)
            },
            None => (g.0, g.1, g.2, g.3.push(w)),
        }
    }
}

/// The groups of a query once its last words are filed.
pub open spec fn groups(words: Seq<Seq<char>>) -> (Option<Seq<Seq<char>>>, Option<Seq<Seq<char>>>) {
    let g = gather(words);
    let f = if g.2 is Some && g.3.len() > 0 {
        file_group(g)
    } else {
        g
    };
    (f.0, f.1)
}

/// A query's words, grouped by keyword.
#[derive(Debug)]
pub struct QueryAccumulator {
    lift: Option<Panel>,
    filter: Option<Panel>,
}

/// A query that names no crate, or an ill-formed clause.
#[derive(Clone, Copy, Debug, PartialEq, Eq, Structural)]
pub struct InvalidQueryError {}

pub open spec fn opt_panel_words(p: Option<Panel>) -> Option<Seq<Seq<char>>> {
    match p {
        Some(x) => Some(panel_words(x)),
        None => None,
    }
}

impl QueryAccumulator {
    /// The words after `lift`, and those after `where`.
    pub closed spec fn view_groups(&self) -> (Option<Seq<Seq<char>>>, Option<Seq<Seq<char>>>) {
        (opt_panel_words(self.lift), opt_panel_words(self.filter))
    }

    pub closed spec fn only_token_values(&self) -> bool {
        &&& (self.lift matches Some(p) ==> p is TokenValue)
        &&& (self.filter matches Some(p) ==> p is TokenValue)
    }

    pub fn from_input(input: &str) -> (r: Self)
        ensures
            r.view_groups() == groups(words_of(input@)),
            r.only_token_values(),
    {
        let words = split_words(input);
        let ghost ws = words_of(input@);
        let mut lift: Option<Vec<String>> = None;
        let mut filter: Option<Vec<String>> = None;
        let mut button: Option<Button> = None;
        let mut collector: Vec<String> = Vec::new();
        let mut i: usize = 0;
        while i < words.len()
            invariant
                i <= words@.len(),
                strings_view(words@) == ws,
                gather(ws.take(i as int)) == (
                    match lift { Some(v) => Some(strings_view(v@)), None => None },
                    match filter { Some(v) => Some(strings_view(v@)), None => None },
                    button,
                    strings_view(collector@),
                ),
            decreases words@.len() - i,
        {
            assert(ws.take(i + 1).drop_last() =~= ws.take(i as int));
            assert(ws[i as int] == words@[i as int]@);
            let w = &words[i];
            let ghost before = collector@;
            match Button::try_from_keyword(w.as_str()) {
                Some(kw) => {
                    if button.is_some() && collector.len() > 0 {
                        match button {
                            Some(Button::Lift) => {
                                lift = Some(collector);
                            }
                            _ => {
                                filter = Some(collector);
                            }
                        }
                        collector = Vec::new();
                        assert(strings_view(collector@) =~= Seq::<Seq<char>>::empty());
                    }
                    button = Some(kw);
                }
                None => {
                    collector.push(w.clone());
                    assert(strings_view(collector@) =~= strings_view(before).push(w@));
                }
            }
            i = i + 1;
        }
        assert(ws.take(words@.len() as int) =~= ws);
        if button.is_some() && collector.len() > 0 {
            match button {
                Some(Button::Lift) => {
                    lift = Some(collector);
                }
                _ => {
                    filter = Some(collector);
                }
            }
        }
        let r = QueryAccumulator {
            lift: match lift {
                Some(v) => Some(Panel::TokenValue(v)),
                None => None,
            },
            filter: match filter {
                Some(v) => Some(Panel::TokenValue(v)),
                None => None,
            },
        };
        r
    }

    /// The words filed under `key`.
    pub fn try_get(&self, key: Button) -> (r: Result<&Panel, InvalidQueryError>)
        ensures
            match key {
                Button::Lift => match r {
                    Ok(p) => self.view_groups().0 == Some(panel_words(*p)),
                    Err(_) => self.view_groups().0 is None,
                },
                Button::Where => match r {
                    Ok(p) => self.view_groups().1 == Some(panel_words(*p)),
                    Err(_) => self.view_groups().1 is None,
                },
            },
    {
        let entry = match key {
            Button::Lift => &self.lift,
            Button::Where => &self.filter,
        };
        match entry {
            Some(p) => Ok(p),
            None => Err(InvalidQueryError {}),
        }
    }
}

/// `c` tests field `sub` against the requirement `req`.
pub open spec fn clause_is(c: WhereClause, sub: SubCondition, req: Seq<char>) -> bool {
    &&& c.sub_condition == sub
    &&& c.operator is None
    &&& (c.parameter matches PanelValue::Semver(v) && v@ == req)
}

/// The clause of a `where` group: a field and a requirement, as in
/// `version ^1.0`.
pub open spec fn clause_of(words: Seq<Seq<char>>) -> Option<(SubCondition, Seq<char>)> {
    if words.len() == 2 && words[0] == "version"@ && canonical_requirement(words[1]) is Some {
        Some((SubCondition::Version, canonical_requirement(words[1])->Some_0))
    } else {
        None
    }
}

impl WhereClause {
    /// The clause a `where` group writes; `None` where it writes none.
    pub fn try_from_tokens(tokens: &Panel) -> (r: Option<Self>)
        ensures
            match clause_of(panel_words(*tokens)) {
                Some((sub, req)) => (r matches Some(c) && clause_is(c, sub, req)),
                None => r is None,
            },
    {
        let words = match tokens {
            Panel::TokenValue(w) => w,
            Panel::Button(_) => {
                return None;
            }
        };
        if words.len() != 2 {
            return None;
        }
        proof {
            assert(panel_words(*tokens)[0] == words@[0]@);
            assert(panel_words(*tokens)[1] == words@[1]@);
        }
        let sub = match SubCondition::try_from_token(words[0].as_str()) {
            Some(s) => s,
            None => {
                return None;
            }
        };
        match PanelValue::try_from_token(words[1].as_str()) {
            PanelValue::Semver(c) => Some(WhereClause::new(sub, None, PanelValue::Semver(c))),
            PanelValue::Crate(_) => None,
        }
    }
}

/// A query: the crate to start from, and a clause on the edges to follow.
#[derive(Debug)]
pub struct Query {
    pub package: String,
    pub conditions: Option<WhereClause>,
}

impl Query {
    /// The query a text writes: `lift <crate>`, then optionally
    /// `where version <requirement>`.
    pub fn try_from_accumulator(accumulator: &QueryAccumulator) -> (r: Result<Query, InvalidQueryError>)
        requires
            accumulator.only_token_values(),
        ensures
            ({
                let (lift, filter) = accumulator.view_groups();
                let ok = lift matches Some(l) && l.len() == 1 && (filter matches Some(f) ==> clause_of(f) is Some);
                &&& r is Ok <==> ok
                &&& r matches Ok(q) ==> {
                    &&& q.package@ == lift->Some_0[0]
                    &&& match filter {
                        Some(f) => (q.conditions matches Some(c) && clause_is(c, clause_of(f)->Some_0.0, clause_of(f)->Some_0.1)),
                        None => q.conditions is None,
                    }
                }
            }),
    {
        let krate = match accumulator.try_get(Button::Lift) {
            Ok(Panel::TokenValue(words)) => words,
            _ => {
                return Err(InvalidQueryError {});
            }
        };
        if krate.len() != 1 {
            return Err(InvalidQueryError {});
        }
        let conditions = match accumulator.try_get(Button::Where) {
            Ok(tokens) => match WhereClause::try_from_tokens(tokens) {
                Some(c) => Some(c),
                None => {
                    return Err(InvalidQueryError {});
                }
            },
            Err(_) => None,
        };
        Ok(Query { package: krate[0].clone(), conditions })
    }

    /// The query a text writes.
    pub fn parse(input: &str) -> (r: Result<Query, InvalidQueryError>)
        ensures
            ({
                let (lift, filter) = groups(words_of(input@));
                let ok = lift matches Some(l) && l.len() == 1 && (filter matches Some(f) ==> clause_of(f) is Some);
                &&& r is Ok <==> ok
                &&& r matches Ok(q) ==> {
                    &&& q.package@ == lift->Some_0[0]
                    &&& match filter {
                        Some(f) => (q.conditions matches Some(c) && clause_is(c, clause_of(f)->Some_0.0, clause_of(f)->Some_0.1)),
                        None => q.conditions is None,
                    }
                }
            }),
    {
        let acc = QueryAccumulator::from_input(input);
        Query::try_from_accumulator(&acc)
    }
}

/// Why a query has no result.
#[derive(Clone, Copy, Debug, PartialEq, Eq, Structural)]
pub enum QueryError {
    CrateNotFound,
}

impl Carriage {
    /// The result tree of a query: the crate it names, unrolled through the
    /// edges its clause admits.
    pub fn query(&self, q: &Query) -> (r: Result<UnrolledCrate, QueryError>)
        requires
            self.wf(),
        ensures
            match search_spec(self.map@, q.conditions, q.package@) {
                Some(t) => r matches Ok(u) && tree_view(u) == t,
                None => r == Err::<UnrolledCrate, QueryError>(QueryError::CrateNotFound),
            },
    {
        let pred = match &q.conditions {
            Some(c) => Some(c),
            None => None,
        };
        match self.search(q.package.as_str(), pred) {
            Some(t) => Ok(t),
            None => Err(QueryError::CrateNotFound),
        }
    }
}

} // verus!
