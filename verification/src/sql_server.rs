//! The SQL Server change-data-capture source: the pure query-text logic.
//! The server cannot use a composite key to narrow a scan, so the reader
//! rewrites `(a, b) > (x, y)` into explicit comparisons over quoted column
//! names and positional parameters; connecting and row decoding live with
//! the connector runtime.

use vstd::prelude::*;
use vstd::string::*;

use crate::text::{dec_rep, u64_to_string};

verus! {

/// A change-data-capture position in the server's log: the pair of log
/// sequence numbers the upstream reports.
#[derive(Clone, Debug, Default, PartialEq)]
pub struct SqlServerOffset {
    pub change_lsn: String,
    pub commit_lsn: String,
}

/// A table addressed by schema and name.
pub struct SchemaTableName {
    pub schema_name: String,
    pub table_name: String,
}

/// The snapshot reader for one external SQL Server table; the session that
/// runs its queries is the embedder's.
pub struct SqlServerExternalTableReader {
    pub field_names: String,
}

/// A column name in quotes.
pub open spec fn spec_quoted(col: Seq<char>) -> Seq<char> {
    "\""@ + col + "\""@
}

/// One comparison of a quoted column against a positional parameter, e.g.
/// `("a" > @P1)`.
pub open spec fn spec_cmp_cond(col: Seq<char>, op: Seq<char>, i: int) -> Seq<char> {
    "("@ + spec_quoted(col) + op + dec_rep(i) + ")"@
}

/// The conjunction of equalities over the first `upto` columns.
pub open spec fn spec_eq_chain(cols: Seq<Seq<char>>, upto: int) -> Seq<char>
    decreases upto,
{
    if upto <= 1 {
        spec_cmp_cond(cols[0], " = @P"@, 1)
    } else {
        spec_eq_chain(cols, upto - 1) + " AND "@ + spec_cmp_cond(cols[upto - 1], " = @P"@, upto)
    }
}

/// The `i`-th disjunct: the first `i - 1` columns equal, the `i`-th
/// greater.
pub open spec fn spec_disjunct(cols: Seq<Seq<char>>, i: int) -> Seq<char> {
    if i <= 1 {
        spec_cmp_cond(cols[0], " > @P"@, 1)
    } else {
        "("@ + spec_eq_chain(cols, i - 1) + " AND "@ + spec_cmp_cond(cols[i - 1], " > @P"@, i)
            + ")"@
    }
}

/// The whole filter over the first `upto` columns: the disjuncts joined
/// with `OR`.
pub open spec fn spec_filter_expr(cols: Seq<Seq<char>>, upto: int) -> Seq<char>
    decreases upto,
{
    if upto <= 1 {
        spec_disjunct(cols, 1)
    } else {
        spec_filter_expr(cols, upto - 1) + " OR "@ + spec_disjunct(cols, upto)
    }
}

impl SqlServerExternalTableReader {
    /// The table's name, schema-qualified and quoted.
    pub fn get_normalized_table_name(table_name: &SchemaTableName) -> (r: String)
        ensures
            r@ == spec_quoted(table_name.schema_name@) + "."@ + spec_quoted(
                table_name.table_name@,
            ),
    {
        let mut r = String::from_str("\"");
        r.append(table_name.schema_name.as_str());
        r.append("\"");
        r.append(".");
        r.append("\"");
        r.append(table_name.table_name.as_str());
        r.append("\"");
        proof {
            assert(r@ =~= spec_quoted(table_name.schema_name@) + "."@ + spec_quoted(
                table_name.table_name@,
            ));
        }
        r
    }

    /// One quoted-column comparison against the `i`-th parameter.
    fn cmp_cond(col: &String, op: &str, i: u64) -> (r: String)
        ensures
            r@ == spec_cmp_cond(col@, op@, i as int),
    {
        let mut r = String::from_str("(");
        r.append("\"");
        r.append(col.as_str());
        r.append("\"");
        r.append(op);
        let num = u64_to_string(i);
        r.append(num.as_str());
        r.append(")");
        proof {
            assert(r@ =~= spec_cmp_cond(col@, op@, i as int));
        }
        r
    }

    /// Rewrite `(c1, ..., cn) > (x1, ..., xn)` for the server: the columns
    /// compared in order, with ties broken by the next column, over quoted
    /// names and the positional parameters `@P1 ..= @Pn`.
    pub fn filter_expression(columns: &Vec<String>) -> (r: String)
        requires
            columns@.len() >= 1,
        ensures
            r@ == spec_filter_expr(
                columns@.map_values(|c: String| c@),
                columns@.len() as int,
            ),
    {
        let ghost cols = columns@.map_values(|c: String| c@);
        let n = columns.len();
        let mut out = Self::cmp_cond(&columns[0], " > @P", 1);
        proof {
            assert(cols[0] == columns@[0]@);
            assert(out@ == spec_filter_expr(cols, 1));
        }
        let mut i: usize = 1;
        while i < n
            invariant
                n == columns@.len(),
                1 <= n,
                1 <= i <= n,
                cols == columns@.map_values(|c: String| c@),
                out@ == spec_filter_expr(cols, i as int),
            decreases n - i,
        {
            let d = i + 1;
            let mut condition = Self::cmp_cond(&columns[0], " = @P", 1);
            proof {
                assert(cols[0] == columns@[0]@);
                assert(condition@ == spec_eq_chain(cols, 1));
            }
            let mut j: usize = 1;
            while j < d - 1
                invariant
                    n == columns@.len(),
                    2 <= d <= n,
                    1 <= j <= d - 1,
                    cols == columns@.map_values(|c: String| c@),
                    condition@ == spec_eq_chain(cols, j as int),
                decreases d - 1 - j,
            {
                condition.append(" AND ");
                let piece = Self::cmp_cond(&columns[j], " = @P", (j + 1) as u64);
                condition.append(piece.as_str());
                proof {
                    assert(cols[j as int] == columns@[j as int]@);
                    assert(condition@ =~= spec_eq_chain(cols, j + 1));
                }
                j = j + 1;
            }
            condition.append(" AND ");
            let piece = Self::cmp_cond(&columns[d - 1], " > @P", d as u64);
            condition.append(piece.as_str());
            out.append(" OR ");
            out.append("(");
            out.append(condition.as_str());
            out.append(")");
            proof {
                assert(cols[d - 1] == columns@[d - 1]@);
                assert(("("@ + condition@ + ")"@) =~= spec_disjunct(cols, d as int));
                assert(out@ =~= spec_filter_expr(cols, d as int));
            }
            i = i + 1;
        }
        out
    }

    /// A column name in quotes, as the server's identifiers are written.
    pub fn quote_column(column: &String) -> (r: String)
        ensures
            r@ == spec_quoted(column@),
    {
        let mut r = String::from_str("\"");
        r.append(column.as_str());
        r.append("\"");
        proof {
            assert(r@ =~= spec_quoted(column@));
        }
        r
    }
}

} // verus!
