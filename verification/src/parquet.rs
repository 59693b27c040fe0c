//! The front of the parquet file source: the parser is configured with the
//! user-defined source columns; turning record batches into chunks is the
//! connector runtime's work around it.

use vstd::prelude::*;

verus! {

/// A user-defined source column, reduced to what configuring the parser
/// reads: its name and whether it is an added hidden column.
pub struct SourceColumnDesc {
    pub name: String,
    pub is_hidden_addition_col: bool,
}

/// A handle to the source context of the owning actor.
#[derive(Clone, Copy, Debug, PartialEq, Eq, Structural)]
pub struct SourceContextRef {
    pub actor_id: u32,
}

/// An error of the connector layer.
#[derive(Debug)]
pub struct ConnectorError {
    pub message: String,
}

/// Converts incoming record batches into stream chunks according to the
/// user-defined schema.
pub struct ParquetParser {
    rw_columns: Vec<SourceColumnDesc>,
    source_ctx: SourceContextRef,
}

impl ParquetParser {
    pub closed spec fn spec_rw_columns(&self) -> Seq<SourceColumnDesc> {
        self.rw_columns@
    }

    pub closed spec fn spec_source_ctx(&self) -> SourceContextRef {
        self.source_ctx
    }

    /// Configuring the parser accepts any column list.
    pub fn new(rw_columns: Vec<SourceColumnDesc>, source_ctx: SourceContextRef) -> (r: Result<
        Self,
        ConnectorError,
    >)
        ensures
            r matches Ok(p) && p.spec_rw_columns() == rw_columns@ && p.spec_source_ctx()
                == source_ctx,
    {
        Ok(ParquetParser { rw_columns, source_ctx })
    }
}

} // verus!
