//! Remaps code-coverage records from generated positions to original sources
//! through an embedded source map.
use vstd::prelude::*;

pub mod vlq;
pub mod sourcemap;
pub mod aggregator;
pub mod transformer;

pub use crate::sourcemap::{get_mapping, MappingSegment, OriginalPosition, SourceMapDecoder};
pub use crate::aggregator::MappedCoverage;
pub use crate::transformer::{SourceMapStore, SourceMapTransformer, TransformError};
use crate::transformer::{has_source_maps, transform_output, transform_run};

verus! {

/// A position in a file: 1-based line, 0-based column.
#[derive(Clone, Copy, Debug, PartialEq, Eq, Structural)]
pub struct Position {
    pub line: u32,
    pub column: u32,
}

/// A span between two positions.
#[derive(Clone, Copy, Debug, PartialEq, Eq, Structural)]
pub struct Location {
    pub start: Position,
    pub end: Position,
}

/// A function record: its declaration token and its whole body.
#[derive(Clone, Debug)]
pub struct FunctionMeta {
    pub name: String,
    pub decl: Location,
    pub loc: Location,
}

/// A branch record: its kind, its summary span and one span per arm.
#[derive(Clone, Debug)]
pub struct BranchMeta {
    pub branch_type: String,
    pub loc: Location,
    pub locations: Vec<Location>,
}

/// A source map: the sources and names that its segments index, and the
/// encoded mappings.
#[derive(Clone, Debug)]
pub struct SourceMap {
    pub version: u32,
    pub sources: Vec<String>,
    pub names: Vec<String>,
    pub mappings: String,
    pub file: Option<String>,
    pub source_root: Option<String>,
    pub sources_content: Option<Vec<String>>,
}

/// Coverage of one file. Each map is a list of `(id, value)` entries. Ids
/// need not be unique in a coverage read from outside: where two hit
/// entries share an id, the first one counts. Coverage that the library
/// builds has unique ids.
#[derive(Clone, Debug)]
pub struct FileCoverage {
    pub path: String,
    pub statement_map: Vec<(String, Location)>,
    pub fn_map: Vec<(String, FunctionMeta)>,
    pub branch_map: Vec<(String, BranchMeta)>,
    /// Statement hits by id.
    pub s: Vec<(String, u32)>,
    /// Function hits by id.
    pub f: Vec<(String, u32)>,
    /// Branch hits by id, one count per arm.
    pub b: Vec<(String, Vec<u32>)>,
    pub input_source_map: Option<SourceMap>,
}

/// Coverage of many files, as `(path, coverage)` entries.
pub type CoverageMap = Vec<(String, FileCoverage)>;

/// Where a generated span lands: an original source and a span in it.
#[derive(Clone, Debug)]
pub struct Mapping {
    pub source: String,
    pub loc: Location,
}

/// The characters of each string.
pub open spec fn strings_view(v: Seq<String>) -> Seq<Seq<char>> {
    v.map_values(|s: String| s@)
}

/// The characters of an optional string.
pub open spec fn option_string_view(o: Option<String>) -> Option<Seq<char>> {
    match o {
        Some(s) => Some(s@),
        None => None,
    }
}

/// A store with no base directory.
pub fn create_source_map_store() -> (r: SourceMapStore)
    ensures
        r.base_dir() is None,
{
    SourceMapStore::new()
}

/// Remaps a coverage collection through the source maps its files carry;
/// see `SourceMapStore::transform_coverage`.
pub fn transform_coverage(coverage_map: CoverageMap) -> (r: Result<CoverageMap, TransformError>)
    ensures
        !has_source_maps(coverage_map@) ==> r == Ok::<CoverageMap, TransformError>(coverage_map),
        has_source_maps(coverage_map@) ==> match transform_run(coverage_map@, coverage_map.len() as int) {
            Err((p, x)) => r matches Err(e) && e.path@ == p && e.error == x,
            Ok(st) => r matches Ok(out) && transform_output(out@, st),
        },
{
    let store = create_source_map_store();
    store.transform_coverage(coverage_map)
}

} // verus!
