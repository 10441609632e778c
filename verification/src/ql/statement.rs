//! The syntax tree of the query language.

use vstd::prelude::*;
use vstd::std_specs::cmp::PartialEqSpecImpl;
use crate::pattern::{build_regex, clone_regex, compiled, finds_match, regex_error_message, regex_is_match};
use crate::ql::number::Decimal;

verus! {

/// A name that a script gives to a set.
#[derive(Debug, PartialEq, Eq, Hash)]
pub struct SetName(pub String);

impl View for SetName {
    type V = Seq<char>;

    open spec fn view(&self) -> Seq<char> {
        self.0@
    }
}

/// The name of the set that a statement reads and writes when it names
/// none.
pub open spec fn default_name() -> Seq<char> {
    seq!['_']
}

impl Clone for SetName {
    fn clone(&self) -> (r: Self)
        ensures
            r@ == self@,
    {
        SetName(self.0.clone())
    }
}

impl Default for SetName {
    /// The default set, `_`.
    fn default() -> (r: Self)
        ensures
            r@ == default_name(),
    {
        let mut s = String::new();
        s.push('_');
        assert(s@ =~= default_name());
        SetName(s)
    }
}

impl From<String> for SetName {
    /// The set of the given name.
    fn from(s: String) -> (r: Self) {
        SetName(s)
    }
}

impl vstd::std_specs::convert::FromSpecImpl<String> for SetName {
    open spec fn obeys_from_spec() -> bool {
        true
    }

    open spec fn from_spec(s: String) -> Self {
        SetName(s)
    }
}

impl SetName {
    /// Whether both names are the same.
    pub fn same(&self, other: &SetName) -> (b: bool)
        ensures
            b == (self@ == other@),
    {
        self.0.as_str().eq(other.0.as_str())
    }
}

/// The direction of a recursion: up to what refers to an item, or down to
/// what it refers to, with or without the references from relation to
/// relation.
#[derive(Debug, Clone, Copy, PartialEq, Eq, PartialOrd, Ord, Structural)]
pub enum RecurseType {
    Up,
    UpRelations,
    Down,
    DownRelations,
}

/// The kind of objects that a query asks for.
#[derive(Debug, Clone, Copy, PartialEq, Eq, PartialOrd, Ord, Structural)]
pub enum QueryType {
    Node,
    Way,
    Relation,
    Derived,
    Area,
    /// Node+Way+Relation
    NWR,
}

/// A pattern of the `regex` crate that it does not compile.
#[derive(Debug, PartialEq, Eq)]
pub struct RegexError {
    /// The pattern as it was written.
    pub source: String,
    /// What the `regex` crate says of it.
    pub cause: String,
}

/// A regular expression together with what it was compiled from.
#[derive(Debug)]
pub struct Pattern {
    source: String,
    case_insensitive: bool,
    regex: regex::Regex,
}

/// Whether the regular expression `source`, compiled with the given
/// case-insensitivity and with multi-line mode, verbose syntax and Unicode
/// switched on, matches anywhere in `text`. A pattern that does not compile
/// matches nothing.
pub open spec fn pattern_matches(source: Seq<char>, case_insensitive: bool, text: Seq<char>) -> bool {
    compiled(source, case_insensitive) matches Some(regex) && finds_match(regex, text)
}

impl Pattern {
    /// The compiled expression is what the source and the flag compile to.
    #[verifier::type_invariant]
    spec fn inv(self) -> bool {
        compiled(self.source@, self.case_insensitive) == Some(self.regex)
    }

    /// The pattern as it was written.
    pub closed spec fn source(self) -> Seq<char> {
        self.source@
    }

    /// Whether letters match without regard to case.
    pub closed spec fn case_insensitive(self) -> bool {
        self.case_insensitive
    }

    /// Compiles `source`, or gives the error for a pattern that does not
    /// compile.
    pub fn compile(source: &str, case_insensitive: bool) -> (result: Result<Self, RegexError>)
        ensures
            result is Ok <==> compiled(source@, case_insensitive) is Some,
            result matches Ok(pattern) ==> pattern.source() == source@
                && pattern.case_insensitive() == case_insensitive,
            result matches Err(error) ==> error.source@ == source@,
    {
        match build_regex(source, case_insensitive) {
            Ok(regex) => Ok(Pattern { source: source.to_owned(), case_insensitive, regex }),
            Err(error) => Err(
                RegexError { source: source.to_owned(), cause: regex_error_message(&error) },
            ),
        }
    }

    /// The pattern as it was written.
    pub fn as_str(&self) -> (s: &str)
        ensures
            s@ == self.source(),
    {
        self.source.as_str()
    }

    /// Whether letters match without regard to case.
    pub fn is_case_insensitive(&self) -> (b: bool)
        ensures
            b == self.case_insensitive(),
    {
        self.case_insensitive
    }

    /// Whether the expression matches anywhere in `text`.
    pub fn is_match(&self, text: &str) -> (b: bool)
        ensures
            b == pattern_matches(self.source(), self.case_insensitive(), text@),
    {
        proof {
            use_type_invariant(self);
        }
        regex_is_match(&self.regex, text)
    }
}

impl Clone for Pattern {
    fn clone(&self) -> (r: Self)
        ensures
            r.source() == self.source(),
            r.case_insensitive() == self.case_insensitive(),
    {
        proof {
            use_type_invariant(self);
        }
        Pattern {
            source: self.source.clone(),
            case_insensitive: self.case_insensitive,
            regex: clone_regex(&self.regex),
        }
    }
}

/// A test on a tag's key or value: an exact string, or a regular
/// expression.
#[derive(Debug)]
pub enum TagSpec {
    String(String),
    Regex(Pattern),
}

/// A tag test as a mathematical value: the exact string, or the source and
/// case-insensitivity of the regular expression.
pub enum TagSpecView {
    String(Seq<char>),
    Regex(Seq<char>, bool),
}

impl TagSpecView {
    /// Whether the test holds of `text`.
    pub open spec fn test(self, text: Seq<char>) -> bool {
        match self {
            TagSpecView::String(s) => text == s,
            TagSpecView::Regex(source, case_insensitive) => pattern_matches(
                source,
                case_insensitive,
                text,
            ),
        }
    }
}

impl View for TagSpec {
    type V = TagSpecView;

    open spec fn view(&self) -> TagSpecView {
        match *self {
            TagSpec::String(s) => TagSpecView::String(s@),
            TagSpec::Regex(pattern) => TagSpecView::Regex(
                pattern.source(),
                pattern.case_insensitive(),
            ),
        }
    }
}

impl TagSpec {
    /// The test for the exact string `s`.
    pub fn from_string(s: &str) -> (r: Self)
        ensures
            r@ == TagSpecView::String(s@),
    {
        TagSpec::String(s.to_owned())
    }

    /// The test for the regular expression `r`, compiled with the given
    /// case-insensitivity, or the error for a pattern that does not
    /// compile.
    pub fn from_regex(r: &str, case_insensitive: bool) -> (result: Result<Self, RegexError>)
        ensures
            result is Ok <==> compiled(r@, case_insensitive) is Some,
            result matches Ok(spec) ==> spec@ == TagSpecView::Regex(r@, case_insensitive),
            result matches Err(error) ==> error.source@ == r@,
    {
        match Pattern::compile(r, case_insensitive) {
            Ok(pattern) => Ok(TagSpec::Regex(pattern)),
            Err(error) => Err(error),
        }
    }

    /// Whether the test holds of `s`.
    pub fn test(&self, s: &str) -> (b: bool)
        ensures
            b == self@.test(s@),
    {
        match self {
            TagSpec::Regex(r) => r.is_match(s),
            TagSpec::String(ss) => s.eq(ss.as_str()),
        }
    }
}

impl Clone for TagSpec {
    fn clone(&self) -> (r: Self)
        ensures
            r@ == self@,
    {
        match self {
            TagSpec::String(s) => TagSpec::String(s.clone()),
            TagSpec::Regex(pattern) => TagSpec::Regex(pattern.clone()),
        }
    }
}

impl PartialEq for TagSpec {
    fn eq(&self, other: &Self) -> (r: bool) {
        match self {
            TagSpec::String(s1) => match other {
                TagSpec::String(s2) => s1.as_str().eq(s2.as_str()),
                _ => false,
            },
            TagSpec::Regex(mine) => match other {
                TagSpec::Regex(theirs) => mine.is_case_insensitive() == theirs.is_case_insensitive()
                    && mine.as_str().eq(theirs.as_str()),
                _ => false,
            },
        }
    }
}

impl PartialEqSpecImpl for TagSpec {
    open spec fn obeys_eq_spec() -> bool {
        true
    }

    open spec fn eq_spec(&self, other: &Self) -> bool {
        self@ == other@
    }
}

/// A predicate over an item.
#[derive(Debug, PartialEq)]
pub enum Filter {
    QueryType(QueryType),
    Id(u64),
    /// South, west, north and east bounds, in degrees.
    BoundingBox { s: Decimal, w: Decimal, n: Decimal, e: Decimal },
    TagEqual { k: TagSpec, v: TagSpec },
    TagNotEqual { k: TagSpec, v: TagSpec },
    TagExist { k: TagSpec },
    TagNotExist { k: TagSpec },
    /// Membership in the set of the given name.
    Intersection(SetName),
}

/// A filter as a mathematical value.
pub enum FilterView {
    QueryType(QueryType),
    Id(u64),
    BoundingBox { s: Decimal, w: Decimal, n: Decimal, e: Decimal },
    TagEqual { k: TagSpecView, v: TagSpecView },
    TagNotEqual { k: TagSpecView, v: TagSpecView },
    TagExist { k: TagSpecView },
    TagNotExist { k: TagSpecView },
    Intersection(Seq<char>),
}

impl View for Filter {
    type V = FilterView;

    open spec fn view(&self) -> FilterView {
        match *self {
            Filter::QueryType(t) => FilterView::QueryType(t),
            Filter::Id(id) => FilterView::Id(id),
            Filter::BoundingBox { s, w, n, e } => FilterView::BoundingBox { s, w, n, e },
            Filter::TagEqual { k, v } => FilterView::TagEqual { k: k@, v: v@ },
            Filter::TagNotEqual { k, v } => FilterView::TagNotEqual { k: k@, v: v@ },
            Filter::TagExist { k } => FilterView::TagExist { k: k@ },
            Filter::TagNotExist { k } => FilterView::TagNotExist { k: k@ },
            Filter::Intersection(name) => FilterView::Intersection(name@),
        }
    }
}

impl Clone for Filter {
    fn clone(&self) -> (r: Self)
        ensures
            r@ == self@,
    {
        match self {
            Filter::QueryType(t) => Filter::QueryType(*t),
            Filter::Id(id) => Filter::Id(*id),
            Filter::BoundingBox { s, w, n, e } => Filter::BoundingBox {
                s: *s,
                w: *w,
                n: *n,
                e: *e,
            },
            Filter::TagEqual { k, v } => Filter::TagEqual { k: k.clone(), v: v.clone() },
            Filter::TagNotEqual { k, v } => Filter::TagNotEqual { k: k.clone(), v: v.clone() },
            Filter::TagExist { k } => Filter::TagExist { k: k.clone() },
            Filter::TagNotExist { k } => Filter::TagNotExist { k: k.clone() },
            Filter::Intersection(name) => Filter::Intersection(name.clone()),
        }
    }
}

/// The filters as mathematical values.
pub open spec fn filters_view(filters: Seq<Filter>) -> Seq<FilterView> {
    filters.map_values(|f: Filter| f@)
}

/// A copy of the given filters.
pub fn clone_filters(filters: &Vec<Filter>) -> (r: Vec<Filter>)
    ensures
        filters_view(r@) == filters_view(filters@),
{
    let mut copy: Vec<Filter> = Vec::new();
    let mut i: usize = 0;
    while i < filters.len()
        invariant
            i <= filters@.len(),
            copy@.len() == i,
            forall|j: int| 0 <= j < i ==> copy@[j]@ == filters@[j]@,
        decreases filters@.len() - i,
    {
        copy.push(filters[i].clone());
        i = i + 1;
    }
    assert(filters_view(copy@) =~= filters_view(filters@));
    copy
}

/// The names as mathematical values.
pub open spec fn names_view(names: Seq<SetName>) -> Seq<Seq<char>> {
    names.map_values(|n: SetName| n@)
}

/// One statement of a script: the sets it reads, what it does, and the set
/// it writes.
#[derive(Debug, PartialEq)]
pub struct StatementSpec {
    pub inputs: Vec<SetName>,
    pub statement: Statement,
    pub output: SetName,
}

/// What a statement does.
#[derive(Debug, PartialEq)]
pub enum Statement {
    Query { filters: Vec<Filter> },
    Recurse(RecurseType),
    IsInArea,
    Union { members: Vec<StatementSpec> },
    Difference { source: Box<StatementSpec>, remove: Box<StatementSpec> },
    /// Source from a set
    Item,
    Output,
}

/// A statement with its sets, as a mathematical value.
pub struct StatementSpecView {
    pub inputs: Seq<Seq<char>>,
    pub statement: StatementView,
    pub output: Seq<char>,
}

/// What a statement does, as a mathematical value.
pub enum StatementView {
    Query { filters: Seq<FilterView> },
    Recurse(RecurseType),
    IsInArea,
    Union { members: Seq<StatementSpecView> },
    Difference { source: Box<StatementSpecView>, remove: Box<StatementSpecView> },
    Item,
    Output,
}

/// The mathematical value of a statement with its sets.
pub open spec fn statement_spec_view(spec: StatementSpec) -> StatementSpecView
    decreases spec,
{
    StatementSpecView {
        inputs: names_view(spec.inputs@),
        statement: statement_view(spec.statement),
        output: spec.output@,
    }
}

/// The mathematical value of a statement.
pub open spec fn statement_view(statement: Statement) -> StatementView
    decreases statement,
{
    match statement {
        Statement::Query { filters } => StatementView::Query { filters: filters_view(filters@) },
        Statement::Recurse(t) => StatementView::Recurse(t),
        Statement::IsInArea => StatementView::IsInArea,
        Statement::Union { members } => StatementView::Union {
            members: Seq::new(
                members@.len(),
                |i: int|
                    if 0 <= i < members@.len() {
                        statement_spec_view(members@[i])
                    } else {
                        arbitrary()
                    },
            ),
        },
        Statement::Difference { source, remove } => StatementView::Difference {
            source: Box::new(statement_spec_view(*source)),
            remove: Box::new(statement_spec_view(*remove)),
        },
        Statement::Item => StatementView::Item,
        Statement::Output => StatementView::Output,
    }
}

impl View for StatementSpec {
    type V = StatementSpecView;

    open spec fn view(&self) -> StatementSpecView {
        statement_spec_view(*self)
    }
}

impl View for Statement {
    type V = StatementView;

    open spec fn view(&self) -> StatementView {
        statement_view(*self)
    }
}

/// The statements as mathematical values.
pub open spec fn script_view(script: Seq<StatementSpec>) -> Seq<StatementSpecView> {
    script.map_values(|s: StatementSpec| s@)
}

} // verus!
