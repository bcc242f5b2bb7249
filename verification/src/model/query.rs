//! Query targets, options and results.
use vstd::prelude::*;

verus! {

#[verifier::external_type_specification]
#[verifier::external_body]
pub struct ExJsonValue(serde_json::Value);

#[verifier::external_type_specification]
#[verifier::external_body]
#[verifier::reject_recursive_types(K)]
#[verifier::reject_recursive_types(V)]
pub struct ExJsonMap<K, V>(serde_json::Map<K, V>);

/// Options for queries.
#[derive(Debug, Clone, Default)]
pub struct QueryOpts {
    pub catalog: Option<String>,
    pub limit: i64,
    pub offset: i64,
}

/// Target table for queries.
#[derive(Debug, Clone, Copy, PartialEq, Eq)]
pub enum QueryTarget {
    Knowledge,
    Statement,
}

/// The table a query target reads.
pub open spec fn spec_table_name(t: QueryTarget) -> Seq<char> {
    match t {
        QueryTarget::Knowledge => "knowledge"@,
        QueryTarget::Statement => "statement"@,
    }
}

impl QueryTarget {
    pub fn table_name(&self) -> (r: &'static str)
        ensures
            r@ == spec_table_name(*self),
    {
        match self {
            QueryTarget::Knowledge => "knowledge",
            QueryTarget::Statement => "statement",
        }
    }
}

/// A row of a result set: column name to JSON value.
pub type ResultSetRow = serde_json::Map<String, serde_json::Value>;

/// Rows of a query, and the total count when known.
#[derive(Debug, Clone)]
pub struct QueryResult {
    pub rows: Vec<serde_json::Map<String, serde_json::Value>>,
    pub total_count: Option<i64>,
}

impl QueryResult {
    pub fn new(rows: Vec<serde_json::Map<String, serde_json::Value>>) -> (r: Self)
        ensures
            r.rows == rows,
            r.total_count is None,
    {
        Self { rows, total_count: None }
    }

    pub fn with_total_count(self, count: i64) -> (r: Self)
        ensures
            r.rows == self.rows,
            r.total_count == Some(count),
    {
        let mut s = self;
        s.total_count = Some(count);
        s
    }
}

/// Options for search operations.
#[derive(Debug, Clone)]
pub struct SearchOpts {
    pub catalog: Option<String>,
    pub limit: i64,
    pub offset: i64,
}

impl Default for SearchOpts {
    fn default() -> (r: Self)
        ensures
            r.catalog is None,
            r.limit == 100,
            r.offset == 0,
    {
        Self { catalog: None, limit: 100, offset: 0 }
    }
}

} // verus!
