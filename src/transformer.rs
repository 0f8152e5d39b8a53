//! Remapping of whole files and coverage collections through source maps.
use vstd::prelude::*;
use vstd::string::StrSliceExecFns;
use crate::aggregator::{
    add_branch_model, add_function_model, add_statement_model, aggregated, branches_of,
    functions_of, statements_of, MappedCoverage,
};
use crate::{option_string_view, BranchMeta, CoverageMap, FileCoverage, FunctionMeta, Location, SourceMap};
use crate::sourcemap::{
    get_mapping, mapping_of, mapping_table, parse_source_map, table_lines_bounded, table_view,
    MappingSegment, SegmentView,
};
use crate::vlq::DecodeError;

verus! {

/// A path with both separators, `/` and `\`, turned into `_`.
pub open spec fn unique_key(p: Seq<char>) -> Seq<char> {
    p.map_values(|c: char| if c == '/' || c == '\\' { '_' } else { c })
}

/// The key under which coverage of `pathname` is gathered; see `unique_key`.
pub fn get_unique_key(pathname: &str) -> (r: String)
    ensures
        r@ == unique_key(pathname@),
{
    let chars = crate::sourcemap::chars_of_str(pathname);
    let mut out = "".to_owned();
    proof {
        reveal_strlit("");
    }
    let mut i: usize = 0;
    while i < chars.len()
        invariant
            chars@ == pathname@,
            i <= chars.len(),
            out@ =~= unique_key(pathname@).take(i as int),
        decreases chars.len() - i,
    {
        let c = chars[i];
        if c == '/' || c == '\\' {
            out.append("_");
            proof {
                reveal_strlit("_");
            }
        } else {
            out.append(pathname.substring_char(i, i + 1));
        }
        i = i + 1;
    }
    out
}

/// What an aggregator holds, as plain values.
pub struct FileModel {
    pub path: Seq<char>,
    pub statements: Seq<(Location, u32)>,
    pub functions: Seq<(Seq<char>, Location, Location, u32)>,
    pub branches: Seq<(Seq<char>, Location, Seq<Location>, Seq<u32>)>,
}

/// The records of an aggregator's coverage.
pub open spec fn model_of(fc: FileCoverage) -> FileModel {
    FileModel {
        path: fc.path@,
        statements: statements_of(fc),
        functions: functions_of(fc),
        branches: branches_of(fc),
    }
}

/// An aggregator for `path` with no records.
pub open spec fn empty_model(path: Seq<char>) -> FileModel {
    FileModel { path, statements: seq![], functions: seq![], branches: seq![] }
}

/// The aggregators of a transform, keyed by `unique_key` of their path.
pub open spec fn files_view(v: Seq<(String, MappedCoverage)>) -> Seq<FileModel> {
    v.map_values(|e: (String, MappedCoverage)| model_of(e.1.file_coverage))
}

/// Each aggregator sits under the key of its path, keys are distinct, and
/// each holds aggregated coverage without a source map.
pub open spec fn files_wf(v: Seq<(String, MappedCoverage)>) -> bool {
    &&& forall|i: int|
        0 <= i < v.len() ==> #[trigger] v[i].0@ == unique_key(v[i].1.file_coverage.path@)
            && aggregated(v[i].1.file_coverage) && v[i].1.file_coverage.input_source_map is None
    &&& forall|i: int, j: int| #![trigger v[i], v[j]] 0 <= i < j < v.len() ==> v[i].0@ != v[j].0@
}

/// The aggregator that records of `source` go to: the one whose path has the
/// same key, or a new empty one appended at the end.
pub open spec fn route(files: Seq<FileModel>, source: Seq<char>) -> (Seq<FileModel>, int) {
    if exists|i: int| 0 <= i < files.len() && unique_key(files[i].path) == unique_key(source) {
        (files, choose|i: int| 0 <= i < files.len() && unique_key(files[i].path) == unique_key(source))
    } else {
        (files.push(empty_model(source)), files.len() as int)
    }
}

/// Adds a statement to the aggregator of `source`.
pub open spec fn route_statement(files: Seq<FileModel>, source: Seq<char>, loc: Location, hits: u32) -> Seq<FileModel> {
    let (fs, i) = route(files, source);
    fs.update(i, FileModel { statements: add_statement_model(fs[i].statements, loc, hits).0, ..fs[i] })
}

/// Adds a function to the aggregator of `source`.
pub open spec fn route_function(
    files: Seq<FileModel>,
    source: Seq<char>,
    name: Seq<char>,
    decl: Location,
    loc: Location,
    hits: u32,
) -> Seq<FileModel> {
    let (fs, i) = route(files, source);
    fs.update(i, FileModel { functions: add_function_model(fs[i].functions, name, decl, loc, hits).0, ..fs[i] })
}

/// Adds a branch to the aggregator of `source`.
pub open spec fn route_branch(
    files: Seq<FileModel>,
    source: Seq<char>,
    kind: Seq<char>,
    loc: Location,
    locations: Seq<Location>,
    hits: Seq<u32>,
) -> Seq<FileModel> {
    let (fs, i) = route(files, source);
    fs.update(
        i,
        FileModel { branches: add_branch_model(fs[i].branches, kind, loc, locations, hits).0, ..fs[i] },
    )
}

/// Finds or creates the aggregator for `source`; see `route`.
fn route_exec(files: &mut Vec<(String, MappedCoverage)>, source: &String) -> (r: usize)
    requires
        files_wf(old(files)@),
    ensures
        files_wf(final(files)@),
        (files_view(final(files)@), r as int) == route(files_view(old(files)@), source@),
        r < final(files).len(),
{
    let key = get_unique_key(source.as_str());
    let ghost fv = files_view(files@);
    let mut i: usize = 0;
    while i < files.len()
        invariant
            i <= files.len(),
            files_wf(files@),
            fv == files_view(files@),
            key@ == unique_key(source@),
            forall|j: int| 0 <= j < i ==> files@[j].0@ != key@,
        decreases files.len() - i,
    {
        if files[i].0 == key {
            proof {
                assert(fv[i as int].path == files@[i as int].1.file_coverage.path@);
                assert forall|j: int| 0 <= j < fv.len() && unique_key(fv[j].path) == unique_key(source@) implies j == i by {
                    assert(fv[j].path == files@[j].1.file_coverage.path@);
                    if j < i {
                    } else if j > i {
                        assert(files@[i as int].0@ != files@[j].0@);
                    }
                }
            }
            return i;
        }
        i = i + 1;
    }
    proof {
        assert forall|j: int| 0 <= j < fv.len() implies unique_key(fv[j].path) != unique_key(source@) by {
            assert(fv[j].path == files@[j].1.file_coverage.path@);
        }
    }
    let n = files.len();
    let mc = MappedCoverage::new(source.clone());
    files.push((key, mc));
    proof {
        assert(statements_of(mc.file_coverage) =~= seq![]);
        assert(functions_of(mc.file_coverage) =~= seq![]);
        assert(branches_of(mc.file_coverage) =~= seq![]);
        assert(model_of(mc.file_coverage) == empty_model(source@));
        assert(files_view(files@) =~= fv.push(empty_model(source@)));
        let v = files@;
        assert forall|a: int, b: int| #![trigger v[a], v[b]] 0 <= a < b < v.len() implies v[a].0@ != v[b].0@ by {
            if b < n {
                assert(old(files)@[a] == v[a] && old(files)@[b] == v[b]);
            } else {
                assert(old(files)@[a] == v[a]);
            }
        }
    }
    n
}

/// Adds a statement record to the aggregator of `source`; see `route_statement`.
fn add_statement_to(files: &mut Vec<(String, MappedCoverage)>, source: &String, loc: Location, hits: u32)
    requires
        files_wf(old(files)@),
    ensures
        files_wf(final(files)@),
        files_view(final(files)@) == route_statement(files_view(old(files)@), source@, loc, hits),
{
    let i = route_exec(files, source);
    let ghost routed = files_view(files@);
    let ghost before = files@;
    let (key, mut mc) = files.remove(i);
    proof {
        assert(before[i as int].0@ == unique_key(before[i as int].1.file_coverage.path@));
    }
    mc.add_statement(loc, hits);
    files.insert(i, (key, mc));
    proof {
        assert(files@ =~= before.update(i as int, (key, mc)));
        assert(files_view(files@) =~= routed.update(i as int, model_of(mc.file_coverage)));
        assert(routed[i as int] == model_of(before[i as int].1.file_coverage));
        let v = files@;
        assert forall|a: int| 0 <= a < v.len() implies #[trigger] v[a].0@ == unique_key(v[a].1.file_coverage.path@)
            && aggregated(v[a].1.file_coverage) && v[a].1.file_coverage.input_source_map is None by {
            assert(before[a].0@ == unique_key(before[a].1.file_coverage.path@));
        }
        assert forall|a: int, b: int| #![trigger v[a], v[b]] 0 <= a < b < v.len() implies v[a].0@ != v[b].0@ by {
            assert(before[a].0@ == v[a].0@ && before[b].0@ == v[b].0@);
            assert(before[a].0@ != before[b].0@);
        }
    }
}

/// Adds a function record to the aggregator of `source`; see `route_function`.
fn add_function_to(files: &mut Vec<(String, MappedCoverage)>, source: &String, name: String, decl: Location, loc: Location, hits: u32)
    requires
        files_wf(old(files)@),
    ensures
        files_wf(final(files)@),
        files_view(final(files)@) == route_function(files_view(old(files)@), source@, name@, decl, loc, hits),
{
    let i = route_exec(files, source);
    let ghost routed = files_view(files@);
    let ghost before = files@;
    let (key, mut mc) = files.remove(i);
    proof {
        assert(before[i as int].0@ == unique_key(before[i as int].1.file_coverage.path@));
    }
    mc.add_function(name, decl, loc, hits);
    files.insert(i, (key, mc));
    proof {
        assert(files@ =~= before.update(i as int, (key, mc)));
        assert(files_view(files@) =~= routed.update(i as int, model_of(mc.file_coverage)));
        assert(routed[i as int] == model_of(before[i as int].1.file_coverage));
        let v = files@;
        assert forall|a: int| 0 <= a < v.len() implies #[trigger] v[a].0@ == unique_key(v[a].1.file_coverage.path@)
            && aggregated(v[a].1.file_coverage) && v[a].1.file_coverage.input_source_map is None by {
            assert(before[a].0@ == unique_key(before[a].1.file_coverage.path@));
        }
        assert forall|a: int, b: int| #![trigger v[a], v[b]] 0 <= a < b < v.len() implies v[a].0@ != v[b].0@ by {
            assert(before[a].0@ == v[a].0@ && before[b].0@ == v[b].0@);
            assert(before[a].0@ != before[b].0@);
        }
    }
}

/// Adds a branch record to the aggregator of `source`; see `route_branch`.
fn add_branch_to(files: &mut Vec<(String, MappedCoverage)>, source: &String, kind: String, loc: Location, locations: Vec<Location>, hits: Vec<u32>)
    requires
        files_wf(old(files)@),
    ensures
        files_wf(final(files)@),
        files_view(final(files)@) == route_branch(files_view(old(files)@), source@, kind@, loc, locations@, hits@),
{
    let i = route_exec(files, source);
    let ghost routed = files_view(files@);
    let ghost before = files@;
    let (key, mut mc) = files.remove(i);
    proof {
        assert(before[i as int].0@ == unique_key(before[i as int].1.file_coverage.path@));
    }
    mc.add_branch(kind, loc, locations, hits);
    files.insert(i, (key, mc));
    proof {
        assert(files@ =~= before.update(i as int, (key, mc)));
        assert(files_view(files@) =~= routed.update(i as int, model_of(mc.file_coverage)));
        assert(routed[i as int] == model_of(before[i as int].1.file_coverage));
        let v = files@;
        assert forall|a: int| 0 <= a < v.len() implies #[trigger] v[a].0@ == unique_key(v[a].1.file_coverage.path@)
            && aggregated(v[a].1.file_coverage) && v[a].1.file_coverage.input_source_map is None by {
            assert(before[a].0@ == unique_key(before[a].1.file_coverage.path@));
        }
        assert forall|a: int, b: int| #![trigger v[a], v[b]] 0 <= a < b < v.len() implies v[a].0@ != v[b].0@ by {
            assert(before[a].0@ == v[a].0@ && before[b].0@ == v[b].0@);
            assert(before[a].0@ != before[b].0@);
        }
    }
}

/// The hits recorded under `id` (the first entry with that id), or 0.
pub open spec fn hits_for(v: Seq<(String, u32)>, id: Seq<char>) -> u32
    decreases v.len(),
{
    if v.len() == 0 {
        0
    } else if v[0].0@ == id {
        v[0].1
    } else {
        hits_for(v.drop_first(), id)
    }
}

/// The branch hits recorded under `id` (the first entry with that id), or none.
pub open spec fn branch_hits_for(v: Seq<(String, Vec<u32>)>, id: Seq<char>) -> Seq<u32>
    decreases v.len(),
{
    if v.len() == 0 {
        seq![]
    } else if v[0].0@ == id {
        v[0].1@
    } else {
        branch_hits_for(v.drop_first(), id)
    }
}

fn lookup_hits(v: &Vec<(String, u32)>, id: &String) -> (r: u32)
    ensures
        r == hits_for(v@, id@),
{
    let mut i: usize = 0;
    assert(v@.skip(0) =~= v@);
    while i < v.len()
        invariant
            i <= v.len(),
            hits_for(v@, id@) == hits_for(v@.skip(i as int), id@),
        decreases v.len() - i,
    {
        proof {
            assert(v@.skip(i as int).drop_first() =~= v@.skip(i + 1));
        }
        if v[i].0 == *id {
            return v[i].1;
        }
        i = i + 1;
    }
    0
}

fn lookup_branch_hits(v: &Vec<(String, Vec<u32>)>, id: &String) -> (r: Vec<u32>)
    ensures
        r@ == branch_hits_for(v@, id@),
{
    let mut i: usize = 0;
    assert(v@.skip(0) =~= v@);
    while i < v.len()
        invariant
            i <= v.len(),
            branch_hits_for(v@, id@) == branch_hits_for(v@.skip(i as int), id@),
        decreases v.len() - i,
    {
        proof {
            assert(v@.skip(i as int).drop_first() =~= v@.skip(i + 1));
        }
        if v[i].0 == *id {
            return copy_hits(&v[i].1);
        }
        i = i + 1;
    }
    Vec::new()
}

fn copy_hits(v: &Vec<u32>) -> (r: Vec<u32>)
    ensures
        r@ == v@,
{
    let mut out: Vec<u32> = Vec::new();
    let mut i: usize = 0;
    while i < v.len()
        invariant
            i <= v.len(),
            out@ =~= v@.take(i as int),
        decreases v.len() - i,
    {
        out.push(v[i]);
        i = i + 1;
    }
    out
}

/// The first `n` statement entries, remapped through `table` into `files`,
/// with hits from `hits`. A statement whose span does not map is dropped.
pub open spec fn fold_statements(
    files: Seq<FileModel>,
    entries: Seq<(String, Location)>,
    hits: Seq<(String, u32)>,
    table: Seq<Seq<SegmentView>>,
    n: int,
) -> Seq<FileModel>
    decreases n,
{
    if n <= 0 {
        files
    } else {
        let prev = fold_statements(files, entries, hits, table, n - 1);
        let e = entries[n - 1];
        match mapping_of(table, e.1) {
            Some((src, loc)) => route_statement(prev, src, loc, hits_for(hits, e.0@)),
            None => prev,
        }
    }
}

/// Where a function lands: its declaration and its body both map, to the same source.
pub open spec fn function_target(table: Seq<Seq<SegmentView>>, meta: FunctionMeta) -> Option<(Seq<char>, Location, Location)> {
    match (mapping_of(table, meta.decl), mapping_of(table, meta.loc)) {
        (Some((s1, d)), Some((s2, l))) => if s1 == s2 {
            Some((s1, d, l))
        } else {
            None
        },
        _ => None,
    }
}

/// The first `n` function entries, remapped through `table` into `files`,
/// with hits from `hits`.
pub open spec fn fold_functions(
    files: Seq<FileModel>,
    entries: Seq<(String, FunctionMeta)>,
    hits: Seq<(String, u32)>,
    table: Seq<Seq<SegmentView>>,
    n: int,
) -> Seq<FileModel>
    decreases n,
{
    if n <= 0 {
        files
    } else {
        let prev = fold_functions(files, entries, hits, table, n - 1);
        let e = entries[n - 1];
        match function_target(table, e.1) {
            Some((src, decl, loc)) => route_function(prev, src, e.1.name@, decl, loc, hits_for(hits, e.0@)),
            None => prev,
        }
    }
}

/// The first `n` arms of a branch that map: their spans, the hits at their
/// indices, the source of the first of them, and whether another names a
/// different source.
pub open spec fn branch_arms(
    table: Seq<Seq<SegmentView>>,
    locations: Seq<Location>,
    hits: Seq<u32>,
    n: int,
) -> (Seq<Location>, Seq<u32>, Option<Seq<char>>, bool)
    decreases n,
{
    if n <= 0 {
        (seq![], seq![], None, false)
    } else {
        let (locs, hs, first, mixed) = branch_arms(table, locations, hits, n - 1);
        match mapping_of(table, locations[n - 1]) {
            None => (locs, hs, first, mixed),
            Some((src, l)) => {
                let f = match first {
                    None => src,
                    Some(x) => x,
                };
                (
                    locs.push(l),
                    if n - 1 < hits.len() {
                        hs.push(hits[n - 1])
                    } else {
                        hs
                    },
                    Some(f),
                    mixed || f != src,
                )
            },
        }
    }
}

/// Where a branch lands: its source, summary span, mapped arms and their
/// hits. `None` where no arm maps or the arms map to more than one source.
/// The summary span is the mapped `loc` where it is not at line 0, column 0
/// and maps, else the first mapped arm.
pub open spec fn branch_target(
    table: Seq<Seq<SegmentView>>,
    meta: BranchMeta,
    hits: Seq<u32>,
) -> Option<(Seq<char>, Location, Seq<Location>, Seq<u32>)> {
    let (locs, hs, first, mixed) = branch_arms(table, meta.locations@, hits, meta.locations@.len() as int);
    if mixed || locs.len() == 0 {
        None
    } else {
        match first {
            None => None,
            Some(src) => {
                let summary = if meta.loc.start.line != 0 || meta.loc.start.column != 0 {
                    match mapping_of(table, meta.loc) {
                        Some((_, l)) => l,
                        None => locs[0],
                    }
                } else {
                    locs[0]
                };
                Some((src, summary, locs, hs))
            },
        }
    }
}

/// The first `n` branch entries, remapped through `table` into `files`,
/// with hits from `hits`.
pub open spec fn fold_branches(
    files: Seq<FileModel>,
    entries: Seq<(String, BranchMeta)>,
    hits: Seq<(String, Vec<u32>)>,
    table: Seq<Seq<SegmentView>>,
    n: int,
) -> Seq<FileModel>
    decreases n,
{
    if n <= 0 {
        files
    } else {
        let prev = fold_branches(files, entries, hits, table, n - 1);
        let e = entries[n - 1];
        match branch_target(table, e.1, branch_hits_for(hits, e.0@)) {
            Some((src, summary, locs, hs)) => route_branch(prev, src, e.1.branch_type@, summary, locs, hs),
            None => prev,
        }
    }
}

/// All records of `fc` remapped through `table` into `files`: statements,
/// then functions, then branches, each in the order of its map.
pub open spec fn remap_file(files: Seq<FileModel>, fc: FileCoverage, table: Seq<Seq<SegmentView>>) -> Seq<FileModel> {
    fold_branches(
        fold_functions(
            fold_statements(files, fc.statement_map@, fc.s@, table, fc.statement_map.len() as int),
            fc.fn_map@,
            fc.f@,
            table,
            fc.fn_map.len() as int,
        ),
        fc.branch_map@,
        fc.b@,
        table,
        fc.branch_map.len() as int,
    )
}

/// Whether at least one statement entry maps through `table`.
pub open spec fn any_statement_maps(entries: Seq<(String, Location)>, table: Seq<Seq<SegmentView>>) -> bool {
    exists|i: int| 0 <= i < entries.len() && (#[trigger] mapping_of(table, entries[i].1)) is Some
}

/// Whether at least one function entry maps through `table`.
pub open spec fn any_function_maps(entries: Seq<(String, FunctionMeta)>, table: Seq<Seq<SegmentView>>) -> bool {
    exists|i: int| 0 <= i < entries.len() && (#[trigger] function_target(table, entries[i].1)) is Some
}

/// Whether at least one branch entry maps through `table`.
pub open spec fn any_branch_maps(
    entries: Seq<(String, BranchMeta)>,
    hits: Seq<(String, Vec<u32>)>,
    table: Seq<Seq<SegmentView>>,
) -> bool {
    exists|i: int|
        0 <= i < entries.len() && (#[trigger] branch_target(table, entries[i].1, branch_hits_for(hits, entries[i].0@))) is Some
}

/// Whether at least one record of `fc` maps through `table`.
pub open spec fn maps_anything(fc: FileCoverage, table: Seq<Seq<SegmentView>>) -> bool {
    ||| any_statement_maps(fc.statement_map@, table)
    ||| any_function_maps(fc.fn_map@, table)
    ||| any_branch_maps(fc.branch_map@, fc.b@, table)
}

/// Maps a function's declaration and body; see `function_target`.
pub fn map_function(
    table: &Vec<Vec<MappingSegment>>,
    meta: &FunctionMeta,
    path: &str,
) -> (r: Option<(String, Location, Location)>)
    requires
        table_lines_bounded(table_view(table@)),
    ensures
        match (r, function_target(table_view(table@), *meta)) {
            (Some((src, d, l)), Some((ssrc, sd, sl))) => src@ == ssrc && d == sd && l == sl,
            (None, None) => true,
            _ => false,
        },
{
    let decl = get_mapping(table, &meta.decl, path)?;
    let span = get_mapping(table, &meta.loc, path)?;
    if decl.source != span.source {
        return None;
    }
    Some((decl.source, decl.loc, span.loc))
}

/// Maps a branch's arms and summary span; see `branch_target`.
pub fn map_branch(
    table: &Vec<Vec<MappingSegment>>,
    meta: &BranchMeta,
    hits: &Vec<u32>,
    path: &str,
) -> (r: Option<(String, Location, Vec<Location>, Vec<u32>)>)
    requires
        table_lines_bounded(table_view(table@)),
    ensures
        match (r, branch_target(table_view(table@), *meta, hits@)) {
            (Some((src, sum, locs, hs)), Some((ssrc, ssum, slocs, shs))) => src@ == ssrc && sum
                == ssum && locs@ == slocs && hs@ == shs,
            (None, None) => true,
            _ => false,
        },
{
    let ghost tv = table_view(table@);
    let mut locs: Vec<Location> = Vec::new();
    let mut mapped_hits: Vec<u32> = Vec::new();
    let mut source: Option<String> = None;
    let mut mixed = false;
    let mut i: usize = 0;
    while i < meta.locations.len()
        invariant
            i <= meta.locations.len(),
            tv == table_view(table@),
            table_lines_bounded(tv),
            (locs@, mapped_hits@, option_string_view(source), mixed) == branch_arms(
                tv,
                meta.locations@,
                hits@,
                i as int,
            ),
        decreases meta.locations.len() - i,
    {
        match get_mapping(table, &meta.locations[i], path) {
            Some(m) => {
                let first = match source {
                    Some(x) => x,
                    None => m.source.clone(),
                };
                if first != m.source {
                    mixed = true;
                }
                locs.push(m.loc);
                if i < hits.len() {
                    mapped_hits.push(hits[i]);
                }
                source = Some(first);
            },
            None => {},
        }
        i = i + 1;
    }
    if mixed || locs.len() == 0 {
        return None;
    }
    let src = match source {
        Some(x) => x,
        None => {
            return None;
        },
    };
    let summary = if meta.loc.start.line != 0 || meta.loc.start.column != 0 {
        match get_mapping(table, &meta.loc, path) {
            Some(m) => m.loc,
            None => locs[0],
        }
    } else {
        locs[0]
    };
    Some((src, summary, locs, mapped_hits))
}

/// Remaps one file's coverage through its source map.
pub struct SourceMapTransformer;

impl SourceMapTransformer {
    pub fn new() -> (r: Self) {
        SourceMapTransformer
    }
}

impl Default for SourceMapTransformer {
    fn default() -> (r: Self) {
        SourceMapTransformer
    }
}

impl SourceMapTransformer {
    /// Remaps every record of `fc` through `source_map` into the aggregators
    /// of `unique_files` (see `remap_file`); returns whether any record
    /// mapped. A mapping table that does not decode fails the call and leaves
    /// the aggregators as they were.
    pub fn process_file(
        &self,
        fc: &FileCoverage,
        source_map: &SourceMap,
        unique_files: &mut Vec<(String, MappedCoverage)>,
    ) -> (r: Result<bool, DecodeError>)
        requires
            files_wf(old(unique_files)@),
        ensures
            files_wf(final(unique_files)@),
            match mapping_table(*source_map) {
                Err(e) => r == Err::<bool, DecodeError>(e) && final(unique_files)@ == old(unique_files)@,
                Ok(table) => r == Ok::<bool, DecodeError>(maps_anything(*fc, table))
                    && files_view(final(unique_files)@) == remap_file(files_view(old(unique_files)@), *fc, table),
            },
    {
        let table = match parse_source_map(source_map) {
            Ok(t) => t,
            Err(e) => {
                return Err(e);
            },
        };
        let ghost tv = table_view(table@);
        let ghost start = files_view(unique_files@);
        let path = fc.path.as_str();
        let mut changed = false;

        let mut i: usize = 0;
        while i < fc.statement_map.len()
            invariant
                i <= fc.statement_map.len(),
                tv == table_view(table@),
                table_lines_bounded(tv),
                files_wf(unique_files@),
                files_view(unique_files@) == fold_statements(start, fc.statement_map@, fc.s@, tv, i as int),
                changed == exists|j: int| 0 <= j < i && (#[trigger] mapping_of(tv, fc.statement_map@[j].1)) is Some,
            decreases fc.statement_map.len() - i,
        {
            let hits = lookup_hits(&fc.s, &fc.statement_map[i].0);
            match get_mapping(&table, &fc.statement_map[i].1, path) {
                Some(m) => {
                    add_statement_to(unique_files, &m.source, m.loc, hits);
                    changed = true;
                },
                None => {},
            }
            i = i + 1;
        }
        let ghost after_statements = files_view(unique_files@);
        let ghost changed_statements = changed;

        let mut i: usize = 0;
        while i < fc.fn_map.len()
            invariant
                i <= fc.fn_map.len(),
                tv == table_view(table@),
                table_lines_bounded(tv),
                files_wf(unique_files@),
                files_view(unique_files@) == fold_functions(after_statements, fc.fn_map@, fc.f@, tv, i as int),
                changed == (changed_statements || exists|j: int| 0 <= j < i && (#[trigger] function_target(tv, fc.fn_map@[j].1)) is Some),
            decreases fc.fn_map.len() - i,
        {
            let hits = lookup_hits(&fc.f, &fc.fn_map[i].0);
            let meta = &fc.fn_map[i].1;
            match map_function(&table, meta, path) {
                Some((src, decl, loc)) => {
                    add_function_to(unique_files, &src, meta.name.clone(), decl, loc, hits);
                    changed = true;
                },
                None => {},
            }
            i = i + 1;
        }
        let ghost after_functions = files_view(unique_files@);
        let ghost changed_functions = changed;

        let mut i: usize = 0;
        while i < fc.branch_map.len()
            invariant
                i <= fc.branch_map.len(),
                tv == table_view(table@),
                table_lines_bounded(tv),
                files_wf(unique_files@),
                files_view(unique_files@) == fold_branches(after_functions, fc.branch_map@, fc.b@, tv, i as int),
                changed == (changed_functions || exists|j: int| 0 <= j < i && (#[trigger] branch_target(tv, fc.branch_map@[j].1, branch_hits_for(fc.b@, fc.branch_map@[j].0@))) is Some),
            decreases fc.branch_map.len() - i,
        {
            let hits = lookup_branch_hits(&fc.b, &fc.branch_map[i].0);
            let meta = &fc.branch_map[i].1;
            match map_branch(&table, meta, &hits, path) {
                Some((src, summary, locs, hs)) => {
                    add_branch_to(unique_files, &src, meta.branch_type.clone(), summary, locs, hs);
                    changed = true;
                },
                None => {},
            }
            i = i + 1;
        }
        Ok(changed)
    }
}

/// A transform that failed: the mapping table of the file at `path` did not decode.
#[derive(Clone, Debug)]
pub struct TransformError {
    pub path: String,
    pub error: DecodeError,
}

/// Whether any file of `m` carries a source map.
pub open spec fn has_source_maps(m: Seq<(String, FileCoverage)>) -> bool {
    exists|i: int| 0 <= i < m.len() && (#[trigger] m[i]).1.input_source_map is Some
}

/// Files passed through unmapped, under `unique_key` of their path: a file
/// whose key is already there is dropped.
pub open spec fn keep_first(
    pass: Seq<(Seq<char>, FileCoverage)>,
    path: Seq<char>,
    fc: FileCoverage,
) -> Seq<(Seq<char>, FileCoverage)> {
    if exists|i: int| 0 <= i < pass.len() && pass[i].0 == unique_key(path) {
        pass
    } else {
        pass.push((unique_key(path), fc))
    }
}

/// The state of a transform: the remapped files, and the files passed through.
pub type TransformState = (Seq<FileModel>, Seq<(Seq<char>, FileCoverage)>);

/// One file of the input: remapped where its source map maps anything,
/// passed through otherwise; a source map that does not decode fails.
pub open spec fn transform_step(st: TransformState, path: Seq<char>, fc: FileCoverage) -> Result<TransformState, (Seq<char>, DecodeError)> {
    match fc.input_source_map {
        Some(sm) => match mapping_table(sm) {
            Err(x) => Err((path, x)),
            Ok(t) => if maps_anything(fc, t) {
                Ok((remap_file(st.0, fc, t), st.1))
            } else {
                Ok((st.0, keep_first(st.1, path, fc)))
            },
        },
        None => Ok((st.0, keep_first(st.1, path, fc))),
    }
}

/// The first `n` files of `m`, in order.
pub open spec fn transform_run(m: Seq<(String, FileCoverage)>, n: int) -> Result<TransformState, (Seq<char>, DecodeError)>
    decreases n,
{
    if n <= 0 {
        Ok((seq![], seq![]))
    } else {
        match transform_run(m, n - 1) {
            Err(e) => Err(e),
            Ok(st) => transform_step(st, m[n - 1].0@, m[n - 1].1),
        }
    }
}

/// The first `n` passed-through files whose key no remapped file has.
pub open spec fn unshadowed(pass: Seq<(Seq<char>, FileCoverage)>, mapped: Seq<FileModel>, n: int) -> Seq<FileCoverage>
    decreases n,
{
    if n <= 0 {
        seq![]
    } else {
        let prev = unshadowed(pass, mapped, n - 1);
        if exists|i: int| 0 <= i < mapped.len() && unique_key(mapped[i].path) == pass[n - 1].0 {
            prev
        } else {
            prev.push(pass[n - 1].1)
        }
    }
}

/// The output of a transform: each remapped file under its path, then each
/// passed-through file that no remapped file shadows, under its own path.
pub open spec fn transform_output(out: Seq<(String, FileCoverage)>, st: TransformState) -> bool {
    let kept = unshadowed(st.1, st.0, st.1.len() as int);
    &&& out.len() == st.0.len() + kept.len()
    &&& forall|i: int|
        0 <= i < st.0.len() ==> (#[trigger] out[i]).0@ == st.0[i].path && model_of(out[i].1) == st.0[i]
            && aggregated(out[i].1) && out[i].1.input_source_map is None
    &&& forall|j: int|
        0 <= j < kept.len() ==> (#[trigger] out[st.0.len() + j]).1 == kept[j] && out[st.0.len()
            + j].0@ == kept[j].path@
}

/// Runs transforms over whole coverage collections.
pub struct SourceMapStore {
    base_dir: Option<String>,
}

impl Default for SourceMapStore {
    fn default() -> (r: Self)
        ensures
            r.base_dir() is None,
    {
        SourceMapStore { base_dir: None }
    }
}

impl SourceMapStore {
    pub fn new() -> (r: Self)
        ensures
            r.base_dir() is None,
    {
        SourceMapStore { base_dir: None }
    }

    pub fn with_base_dir(base_dir: String) -> (r: Self)
        ensures
            option_string_view(r.base_dir()) == Some(base_dir@),
    {
        SourceMapStore { base_dir: Some(base_dir) }
    }

    /// The directory that source paths are relative to, if one was given.
    pub closed spec fn base_dir(&self) -> Option<String> {
        self.base_dir
    }

    /// Remaps every file of `coverage_map` that carries a source map; see
    /// `transform_run` and `transform_output`. Without any source map the
    /// input comes back unchanged.
    pub fn transform_coverage(&self, coverage_map: CoverageMap) -> (r: Result<CoverageMap, TransformError>)
        ensures
            !has_source_maps(coverage_map@) ==> r == Ok::<CoverageMap, TransformError>(coverage_map),
            has_source_maps(coverage_map@) ==> match transform_run(coverage_map@, coverage_map.len() as int) {
                Err((p, x)) => r matches Err(e) && e.path@ == p && e.error == x,
                Ok(st) => r matches Ok(out) && transform_output(out@, st),
            },
    {
        let mut any = false;
        let mut k: usize = 0;
        while k < coverage_map.len()
            invariant
                k <= coverage_map.len(),
                any == exists|j: int| 0 <= j < k && (#[trigger] coverage_map@[j]).1.input_source_map is Some,
            decreases coverage_map.len() - k,
        {
            if coverage_map[k].1.input_source_map.is_some() {
                any = true;
            }
            k = k + 1;
        }
        if !any {
            return Ok(coverage_map);
        }
        let ghost input = coverage_map@;
        let n = coverage_map.len();
        let mut rev = reversed(coverage_map);
        let transformer = SourceMapTransformer::new();
        proof {
            assert(input =~= coverage_map@);
        }
        let mut mapped: Vec<(String, MappedCoverage)> = Vec::new();
        let mut pass: Vec<(String, FileCoverage)> = Vec::new();
        let mut i: usize = 0;
        proof {
            assert(files_view(mapped@) =~= seq![]);
            assert(pass_view(pass@) =~= seq![]);
        }
        while i < n
            invariant
                i <= n,
                n == input.len(),
                rev.len() == n - i,
                forall|j: int| 0 <= j < rev.len() ==> #[trigger] rev@[j] == input[n - 1 - j],
                files_wf(mapped@),
                has_source_maps(input),
                input == coverage_map@,
                transform_run(input, i as int) == Ok::<TransformState, (Seq<char>, DecodeError)>(
                    (files_view(mapped@), pass_view(pass@)),
                ),
            decreases n - i,
        {
            let (file_path, fc) = rev.pop().unwrap();
            proof {
                assert(input[i as int] == (file_path, fc));
            }
            match transform_file(&transformer, file_path, fc, &mut mapped, &mut pass) {
                Ok(()) => {},
                Err(e) => {
                    proof {
                        lemma_run_err(input, i as int + 1);
                    }
                    return Err(e);
                },
            }
            i = i + 1;
        }
        Ok(assemble_output(mapped, pass))
    }
}

/// One file of a transform; see `transform_step`.
fn transform_file(
    transformer: &SourceMapTransformer,
    file_path: String,
    fc: FileCoverage,
    mapped: &mut Vec<(String, MappedCoverage)>,
    pass: &mut Vec<(String, FileCoverage)>,
) -> (r: Result<(), TransformError>)
    requires
        files_wf(old(mapped)@),
    ensures
        files_wf(final(mapped)@),
        match transform_step((files_view(old(mapped)@), pass_view(old(pass)@)), file_path@, fc) {
            Err((p, x)) => r matches Err(e) && e.path@ == p && e.error == x,
            Ok(st) => r is Ok && (files_view(final(mapped)@), pass_view(final(pass)@)) == st,
        },
{
    let pass_through = match &fc.input_source_map {
        Some(sm) => match transformer.process_file(&fc, sm, mapped) {
            Ok(changed) => !changed,
            Err(error) => {
                return Err(TransformError { path: file_path, error });
            },
        },
        None => true,
    };
    if pass_through {
        proof {
            if fc.input_source_map is Some {
                let sm = fc.input_source_map->Some_0;
                if mapping_table(sm) is Ok {
                    lemma_remap_nothing(files_view(old(mapped)@), fc, mapping_table(sm)->Ok_0);
                }
            }
        }
        keep_first_exec(pass, &file_path, fc);
    }
    Ok(())
}

proof fn lemma_remap_nothing(files: Seq<FileModel>, fc: FileCoverage, t: Seq<Seq<SegmentView>>)
    requires
        !maps_anything(fc, t),
    ensures
        remap_file(files, fc, t) == files,
{
    assert forall|n: int| 0 <= n <= fc.statement_map.len() implies fold_statements(files, fc.statement_map@, fc.s@, t, n) == files by {
        lemma_fold_statements_nothing(files, fc, t, n);
    }
    let a = fold_statements(files, fc.statement_map@, fc.s@, t, fc.statement_map.len() as int);
    assert forall|n: int| 0 <= n <= fc.fn_map.len() implies fold_functions(a, fc.fn_map@, fc.f@, t, n) == a by {
        lemma_fold_functions_nothing(a, fc, t, n);
    }
    assert forall|n: int| 0 <= n <= fc.branch_map.len() implies fold_branches(a, fc.branch_map@, fc.b@, t, n) == a by {
        lemma_fold_branches_nothing(a, fc, t, n);
    }
}

proof fn lemma_fold_statements_nothing(files: Seq<FileModel>, fc: FileCoverage, t: Seq<Seq<SegmentView>>, n: int)
    requires
        !maps_anything(fc, t),
        0 <= n <= fc.statement_map.len(),
    ensures
        fold_statements(files, fc.statement_map@, fc.s@, t, n) == files,
    decreases n,
{
    if n > 0 {
        lemma_fold_statements_nothing(files, fc, t, n - 1);
        assert(mapping_of(t, fc.statement_map@[n - 1].1) is None);
    }
}

proof fn lemma_fold_functions_nothing(files: Seq<FileModel>, fc: FileCoverage, t: Seq<Seq<SegmentView>>, n: int)
    requires
        !maps_anything(fc, t),
        0 <= n <= fc.fn_map.len(),
    ensures
        fold_functions(files, fc.fn_map@, fc.f@, t, n) == files,
    decreases n,
{
    if n > 0 {
        lemma_fold_functions_nothing(files, fc, t, n - 1);
        assert(function_target(t, fc.fn_map@[n - 1].1) is None);
    }
}

proof fn lemma_fold_branches_nothing(files: Seq<FileModel>, fc: FileCoverage, t: Seq<Seq<SegmentView>>, n: int)
    requires
        !maps_anything(fc, t),
        0 <= n <= fc.branch_map.len(),
    ensures
        fold_branches(files, fc.branch_map@, fc.b@, t, n) == files,
    decreases n,
{
    if n > 0 {
        lemma_fold_branches_nothing(files, fc, t, n - 1);
        assert(branch_target(t, fc.branch_map@[n - 1].1, branch_hits_for(fc.b@, fc.branch_map@[n - 1].0@)) is None);
    }
}

/// Passed-through files, with their keys as plain values.
pub open spec fn pass_view(v: Seq<(String, FileCoverage)>) -> Seq<(Seq<char>, FileCoverage)> {
    v.map_values(|e: (String, FileCoverage)| (e.0@, e.1))
}

proof fn lemma_run_err(m: Seq<(String, FileCoverage)>, n: int)
    requires
        0 <= n <= m.len(),
        transform_run(m, n) is Err,
    ensures
        transform_run(m, m.len() as int) == transform_run(m, n),
    decreases m.len() - n,
{
    if n < m.len() {
        lemma_run_err(m, n + 1);
    }
}

/// The elements of `v`, last first.
fn reversed<T>(v: Vec<T>) -> (r: Vec<T>)
    ensures
        r.len() == v.len(),
        forall|j: int| 0 <= j < r.len() ==> #[trigger] r@[j] == v@[v.len() - 1 - j],
{
    let ghost input = v@;
    let n = v.len();
    let mut rest = v;
    let mut rev: Vec<T> = Vec::new();
    while rest.len() > 0
        invariant
            rest.len() + rev.len() == n,
            n == input.len(),
            rest@ == input.take(rest.len() as int),
            forall|j: int| 0 <= j < rev.len() ==> #[trigger] rev@[j] == input[n - 1 - j],
        decreases rest.len(),
    {
        let e = rest.pop().unwrap();
        rev.push(e);
        proof {
            assert(rest@ =~= input.take(rest.len() as int));
        }
    }
    rev
}

/// Adds a file passed through unmapped; see `keep_first`.
fn keep_first_exec(pass: &mut Vec<(String, FileCoverage)>, path: &String, fc: FileCoverage)
    ensures
        pass_view(final(pass)@) == keep_first(pass_view(old(pass)@), path@, fc),
{
    let key = get_unique_key(path.as_str());
    let ghost pv = pass_view(pass@);
    let mut i: usize = 0;
    while i < pass.len()
        invariant
            i <= pass.len(),
            pv == pass_view(pass@),
            key@ == unique_key(path@),
            forall|j: int| 0 <= j < i ==> pass@[j].0@ != key@,
        decreases pass.len() - i,
    {
        if pass[i].0 == key {
            proof {
                assert(pv[i as int].0 == key@);
            }
            return;
        }
        i = i + 1;
    }
    proof {
        assert forall|j: int| 0 <= j < pv.len() implies pv[j].0 != unique_key(path@) by {
            assert(pv[j].0 == pass@[j].0@);
        }
    }
    let ghost k = key@;
    pass.push((key, fc));
    proof {
        assert(pass_view(pass@) =~= pv.push((k, fc)));
    }
}

/// Lays out the output of a transform; see `transform_output`.
fn assemble_output(mapped: Vec<(String, MappedCoverage)>, pass: Vec<(String, FileCoverage)>) -> (r: CoverageMap)
    requires
        files_wf(mapped@),
    ensures
        transform_output(r@, (files_view(mapped@), pass_view(pass@))),
{
    let ghost fv = files_view(mapped@);
    let ghost pv = pass_view(pass@);
    let m = mapped.len();
    let mut keys: Vec<String> = Vec::new();
    let mut i: usize = 0;
    while i < m
        invariant
            i <= m == mapped.len(),
            keys.len() == i,
            files_wf(mapped@),
            fv == files_view(mapped@),
            forall|j: int| 0 <= j < i ==> (#[trigger] keys@[j])@ == unique_key(fv[j].path),
        decreases m - i,
    {
        proof {
            assert(fv[i as int].path == mapped@[i as int].1.file_coverage.path@);
        }
        keys.push(mapped[i].0.clone());
        i = i + 1;
    }
    let ghost mapped_seq = mapped@;
    let mut rev = reversed(mapped);
    let mut out: Vec<(String, FileCoverage)> = Vec::new();
    let mut i: usize = 0;
    while i < m
        invariant
            i <= m,
            rev.len() == m - i,
            fv.len() == m,
            forall|j: int| 0 <= j < rev.len() ==> #[trigger] rev@[j] == mapped_seq[m - 1 - j],
            files_wf(mapped_seq),
            fv == files_view(mapped_seq),
            out.len() == i,
            forall|j: int|
                0 <= j < i ==> (#[trigger] out@[j]).0@ == fv[j].path && model_of(out@[j].1) == fv[j]
                    && aggregated(out@[j].1) && out@[j].1.input_source_map is None,
        decreases m - i,
    {
        let (_, mc) = rev.pop().unwrap();
        proof {
            assert(mapped_seq[i as int].1 == mc);
            assert(mapped_seq[i as int].0@ == unique_key(mapped_seq[i as int].1.file_coverage.path@));
            assert(fv[i as int] == model_of(mc.file_coverage));
        }
        let p = mc.file_coverage.path.clone();
        out.push((p, mc.file_coverage));
        i = i + 1;
    }
    let np = pass.len();
    let mut rev = reversed(pass);
    let mut j: usize = 0;
    while j < np
        invariant
            j <= np,
            np == pv.len(),
            rev.len() == np - j,
            forall|t: int| 0 <= t < rev.len() ==> pass_view(seq![#[trigger] rev@[t]])[0] == pv[np - 1 - t],
            keys.len() == m == fv.len(),
            forall|t: int| 0 <= t < m ==> (#[trigger] keys@[t])@ == unique_key(fv[t].path),
            out.len() == m + unshadowed(pv, fv, j as int).len(),
            forall|t: int|
                0 <= t < m ==> (#[trigger] out@[t]).0@ == fv[t].path && model_of(out@[t].1) == fv[t]
                    && aggregated(out@[t].1) && out@[t].1.input_source_map is None,
            forall|t: int|
                0 <= t < unshadowed(pv, fv, j as int).len() ==> (#[trigger] out@[m + t]).1
                    == unshadowed(pv, fv, j as int)[t] && out@[m + t].0@ == unshadowed(pv, fv, j as int)[t].path@,
        decreases np - j,
    {
        let (key, fc) = rev.pop().unwrap();
        proof {
            assert(pass_view(seq![(key, fc)])[0] == pv[j as int]);
        }
        let mut shadowed = false;
        let mut t: usize = 0;
        while t < keys.len()
            invariant
                t <= keys.len() == m == fv.len(),
                forall|a: int| 0 <= a < m ==> (#[trigger] keys@[a])@ == unique_key(fv[a].path),
                shadowed == exists|a: int| 0 <= a < t && unique_key(fv[a].path) == key@,
            decreases keys.len() - t,
        {
            if keys[t] == key {
                shadowed = true;
            }
            t = t + 1;
        }
        let ghost prev = unshadowed(pv, fv, j as int);
        if !shadowed {
            let p = fc.path.clone();
            out.push((p, fc));
        }
        proof {
            let now = unshadowed(pv, fv, j + 1);
            if !shadowed {
                assert(now == prev.push(fc));
            } else {
                assert(now == prev);
            }
            assert forall|t: int| 0 <= t < m implies (#[trigger] out@[t]).0@ == fv[t].path && model_of(out@[t].1) == fv[t]
                    && aggregated(out@[t].1) && out@[t].1.input_source_map is None by {}
        }
        j = j + 1;
    }
    out
}

proof fn lemma_fold_functions_skip(
    files: Seq<FileModel>,
    fns: Seq<(String, FunctionMeta)>,
    hits: Seq<(String, u32)>,
    table: Seq<Seq<SegmentView>>,
    k: int,
    n: int,
)
    requires
        0 <= k < fns.len(),
        0 <= n <= fns.len(),
        function_target(table, fns[k].1) is None,
    ensures
        n <= k ==> fold_functions(files, fns, hits, table, n) == fold_functions(files, fns.remove(k), hits, table, n),
        n > k ==> fold_functions(files, fns, hits, table, n) == fold_functions(files, fns.remove(k), hits, table, n - 1),
    decreases n,
{
    if n > 0 {
        lemma_fold_functions_skip(files, fns, hits, table, k, n - 1);
        if n - 1 < k {
            assert(fns.remove(k)[n - 1] == fns[n - 1]);
        } else if n - 1 > k {
            assert(fns.remove(k)[n - 2] == fns[n - 1]);
        }
    }
}

proof fn lemma_fold_branches_skip(
    files: Seq<FileModel>,
    brs: Seq<(String, BranchMeta)>,
    hits: Seq<(String, Vec<u32>)>,
    table: Seq<Seq<SegmentView>>,
    k: int,
    n: int,
)
    requires
        0 <= k < brs.len(),
        0 <= n <= brs.len(),
        branch_target(table, brs[k].1, branch_hits_for(hits, brs[k].0@)) is None,
    ensures
        n <= k ==> fold_branches(files, brs, hits, table, n) == fold_branches(files, brs.remove(k), hits, table, n),
        n > k ==> fold_branches(files, brs, hits, table, n) == fold_branches(files, brs.remove(k), hits, table, n - 1),
    decreases n,
{
    if n > 0 {
        lemma_fold_branches_skip(files, brs, hits, table, k, n - 1);
        if n - 1 < k {
            assert(brs.remove(k)[n - 1] == brs[n - 1]);
        } else if n - 1 > k {
            assert(brs.remove(k)[n - 2] == brs[n - 1]);
        }
    }
}

/// A function whose declaration and body map to two different sources is
/// dropped whole: remapping the function entries gives the same aggregators,
/// and the same answer to whether any function maps, as remapping them with
/// that function taken out.
pub proof fn lemma_function_sources_differ(
    files: Seq<FileModel>,
    fns: Seq<(String, FunctionMeta)>,
    hits: Seq<(String, u32)>,
    table: Seq<Seq<SegmentView>>,
    k: int,
)
    requires
        0 <= k < fns.len(),
        mapping_of(table, fns[k].1.decl) is Some,
        mapping_of(table, fns[k].1.loc) is Some,
        mapping_of(table, fns[k].1.decl)->Some_0.0 != mapping_of(table, fns[k].1.loc)->Some_0.0,
    ensures
        function_target(table, fns[k].1) is None,
        fold_functions(files, fns, hits, table, fns.len() as int) == fold_functions(
            files,
            fns.remove(k),
            hits,
            table,
            fns.len() - 1,
        ),
        any_function_maps(fns, table) == any_function_maps(fns.remove(k), table),
{
    lemma_fold_functions_skip(files, fns, hits, table, k, fns.len() as int);
    let r = fns.remove(k);
    if any_function_maps(fns, table) {
        let i = choose|i: int| 0 <= i < fns.len() && (#[trigger] function_target(table, fns[i].1)) is Some;
        if i < k {
            assert(r[i] == fns[i]);
        } else {
            assert(r[i - 1] == fns[i]);
        }
    }
    if any_function_maps(r, table) {
        let i = choose|i: int| 0 <= i < r.len() && (#[trigger] function_target(table, r[i].1)) is Some;
        if i < k {
            assert(r[i] == fns[i]);
        } else {
            assert(r[i] == fns[i + 1]);
        }
    }
}

proof fn lemma_arms_agree(table: Seq<Seq<SegmentView>>, locations: Seq<Location>, hits: Seq<u32>, n: int)
    requires
        0 <= n <= locations.len(),
    ensures
        ({
            let (locs, hs, first, mixed) = branch_arms(table, locations, hits, n);
            &&& first is None ==> forall|k: int| 0 <= k < n ==> (#[trigger] mapping_of(table, locations[k])) is None
            &&& !mixed ==> forall|k: int|
                0 <= k < n && (#[trigger] mapping_of(table, locations[k])) is Some ==> first == Some(
                    mapping_of(table, locations[k])->Some_0.0,
                )
        }),
    decreases n,
{
    if n > 0 {
        lemma_arms_agree(table, locations, hits, n - 1);
    }
}

/// A branch with two arms that map to different sources is dropped whole:
/// remapping the branch entries gives the same aggregators, and the same
/// answer to whether any branch maps, as remapping them with that branch
/// taken out.
pub proof fn lemma_branch_sources_differ(
    files: Seq<FileModel>,
    brs: Seq<(String, BranchMeta)>,
    hits: Seq<(String, Vec<u32>)>,
    table: Seq<Seq<SegmentView>>,
    k: int,
    a: int,
    b: int,
)
    requires
        0 <= k < brs.len(),
        0 <= a < brs[k].1.locations.len(),
        0 <= b < brs[k].1.locations.len(),
        mapping_of(table, brs[k].1.locations@[a]) is Some,
        mapping_of(table, brs[k].1.locations@[b]) is Some,
        mapping_of(table, brs[k].1.locations@[a])->Some_0.0 != mapping_of(table, brs[k].1.locations@[b])->Some_0.0,
    ensures
        branch_target(table, brs[k].1, branch_hits_for(hits, brs[k].0@)) is None,
        fold_branches(files, brs, hits, table, brs.len() as int) == fold_branches(
            files,
            brs.remove(k),
            hits,
            table,
            brs.len() - 1,
        ),
        any_branch_maps(brs, hits, table) == any_branch_maps(brs.remove(k), hits, table),
{
    let meta = brs[k].1;
    lemma_arms_agree(table, meta.locations@, branch_hits_for(hits, brs[k].0@), meta.locations@.len() as int);
    lemma_fold_branches_skip(files, brs, hits, table, k, brs.len() as int);
    let r = brs.remove(k);
    if any_branch_maps(brs, hits, table) {
        let i = choose|i: int|
            0 <= i < brs.len() && (#[trigger] branch_target(table, brs[i].1, branch_hits_for(hits, brs[i].0@))) is Some;
        if i < k {
            assert(r[i] == brs[i]);
        } else {
            assert(r[i - 1] == brs[i]);
        }
    }
    if any_branch_maps(r, hits, table) {
        let i = choose|i: int|
            0 <= i < r.len() && (#[trigger] branch_target(table, r[i].1, branch_hits_for(hits, r[i].0@))) is Some;
        if i < k {
            assert(r[i] == brs[i]);
        } else {
            assert(r[i] == brs[i + 1]);
        }
    }
}

} // verus!
