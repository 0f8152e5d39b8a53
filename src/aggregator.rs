//! Per-destination-file aggregation of remapped coverage records: ids,
//! deduplication by location, and summing of hits.
use vstd::prelude::*;
use crate::{BranchMeta, FileCoverage, FunctionMeta, Location};

verus! {

/// The decimal digit `d` (below 10).
pub open spec fn digit_char(d: nat) -> char {
    seq!['0', '1', '2', '3', '4', '5', '6', '7', '8', '9'][d as int]
}

/// The decimal digits of `n`, most significant first.
pub open spec fn decimal(n: nat) -> Seq<char>
    decreases n,
{
    if n < 10 {
        seq![digit_char(n)]
    } else {
        decimal(n / 10).push(digit_char(n % 10))
    }
}

/// The decimal digit `d` as a string.
fn digit_str(d: usize) -> (r: &'static str)
    requires
        d < 10,
    ensures
        r@ == seq![digit_char(d as nat)],
{
    proof {
        reveal_strlit("0");
        reveal_strlit("1");
        reveal_strlit("2");
        reveal_strlit("3");
        reveal_strlit("4");
        reveal_strlit("5");
        reveal_strlit("6");
        reveal_strlit("7");
        reveal_strlit("8");
        reveal_strlit("9");
    }
    match d {
        0 => "0",
        1 => "1",
        2 => "2",
        3 => "3",
        4 => "4",
        5 => "5",
        6 => "6",
        7 => "7",
        8 => "8",
        _ => "9",
    }
}

/// The decimal digits of `n`, without sign or padding.
pub fn decimal_string(n: usize) -> (r: String)
    ensures
        r@ == decimal(n as nat),
    decreases n,
{
    if n < 10 {
        digit_str(n).to_owned()
    } else {
        let mut r = decimal_string(n / 10);
        r.append(digit_str(n % 10));
        r
    }
}

/// Adds two hit counts, saturating at `u32::MAX`.
pub open spec fn add_hits(a: u32, b: u32) -> u32 {
    if a + b > u32::MAX {
        u32::MAX
    } else {
        (a + b) as u32
    }
}

/// Sums `incoming` into `existing` index by index; indices past the end of
/// `existing` are ignored.
pub open spec fn merge_hits(existing: Seq<u32>, incoming: Seq<u32>) -> Seq<u32> {
    Seq::new(
        existing.len(),
        |i: int|
            if i < incoming.len() {
                add_hits(existing[i], incoming[i])
            } else {
                existing[i]
            },
    )
}

/// The statement records of a coverage, by id: location and hits.
pub open spec fn statements_of(fc: FileCoverage) -> Seq<(Location, u32)> {
    Seq::new(fc.statement_map.len() as nat, |i: int| (fc.statement_map@[i].1, fc.s@[i].1))
}

/// The function records of a coverage, by id: name, declaration, body and hits.
pub open spec fn functions_of(fc: FileCoverage) -> Seq<(Seq<char>, Location, Location, u32)> {
    Seq::new(
        fc.fn_map.len() as nat,
        |i: int| (fc.fn_map@[i].1.name@, fc.fn_map@[i].1.decl, fc.fn_map@[i].1.loc, fc.f@[i].1),
    )
}

/// The branch records of a coverage, by id: kind, summary span, arms and hits.
pub open spec fn branches_of(fc: FileCoverage) -> Seq<(Seq<char>, Location, Seq<Location>, Seq<u32>)> {
    Seq::new(
        fc.branch_map.len() as nat,
        |i: int|
            (
                fc.branch_map@[i].1.branch_type@,
                fc.branch_map@[i].1.loc,
                fc.branch_map@[i].1.locations@,
                fc.b@[i].1@,
            ),
    )
}

/// The coverage that an aggregator builds: record `i` of each kind has id
/// `decimal(i)` in both its map and its hits, and no two records of a kind
/// share their key (the location of a statement, the declaration of a
/// function, the arms of a branch).
pub open spec fn aggregated(fc: FileCoverage) -> bool {
    &&& fc.statement_map.len() == fc.s.len()
    &&& fc.fn_map.len() == fc.f.len()
    &&& fc.branch_map.len() == fc.b.len()
    &&& forall|i: int|
        0 <= i < fc.statement_map.len() ==> #[trigger] fc.statement_map@[i].0@ == decimal(i as nat)
            && fc.s@[i].0@ == decimal(i as nat)
    &&& forall|i: int|
        0 <= i < fc.fn_map.len() ==> #[trigger] fc.fn_map@[i].0@ == decimal(i as nat) && fc.f@[i].0@
            == decimal(i as nat)
    &&& forall|i: int|
        0 <= i < fc.branch_map.len() ==> #[trigger] fc.branch_map@[i].0@ == decimal(i as nat)
            && fc.b@[i].0@ == decimal(i as nat)
    &&& forall|i: int, j: int|
        #![trigger fc.statement_map@[i], fc.statement_map@[j]]
        0 <= i < j < fc.statement_map.len() ==> fc.statement_map@[i].1 != fc.statement_map@[j].1
    &&& forall|i: int, j: int|
        #![trigger fc.fn_map@[i], fc.fn_map@[j]]
        0 <= i < j < fc.fn_map.len() ==> fc.fn_map@[i].1.decl != fc.fn_map@[j].1.decl
    &&& forall|i: int, j: int|
        #![trigger fc.branch_map@[i], fc.branch_map@[j]]
        0 <= i < j < fc.branch_map.len() ==> fc.branch_map@[i].1.locations@
            != fc.branch_map@[j].1.locations@
}

/// Adds a statement record: hits go to the record with the same location if
/// there is one, else a record is appended. Returns the record's id.
pub open spec fn add_statement_model(st: Seq<(Location, u32)>, loc: Location, hits: u32) -> (Seq<(Location, u32)>, int) {
    if exists|i: int| 0 <= i < st.len() && st[i].0 == loc {
        let i = choose|i: int| 0 <= i < st.len() && st[i].0 == loc;
        (st.update(i, (loc, add_hits(st[i].1, hits))), i)
    } else {
        (st.push((loc, hits)), st.len() as int)
    }
}

/// The name given to an unnamed function of id `id`.
pub open spec fn unknown_name(id: nat) -> Seq<char> {
    seq!['(', 'u', 'n', 'k', 'n', 'o', 'w', 'n', '_'] + decimal(id) + seq![')']
}

/// Adds a function record, keyed by its declaration; a new record with an
/// empty name is named `unknown_name(id)`.
pub open spec fn add_function_model(
    fs: Seq<(Seq<char>, Location, Location, u32)>,
    name: Seq<char>,
    decl: Location,
    loc: Location,
    hits: u32,
) -> (Seq<(Seq<char>, Location, Location, u32)>, int) {
    if exists|i: int| 0 <= i < fs.len() && fs[i].1 == decl {
        let i = choose|i: int| 0 <= i < fs.len() && fs[i].1 == decl;
        (fs.update(i, (fs[i].0, fs[i].1, fs[i].2, add_hits(fs[i].3, hits))), i)
    } else {
        let n = if name.len() == 0 {
            unknown_name(fs.len())
        } else {
            name
        };
        (fs.push((n, decl, loc, hits)), fs.len() as int)
    }
}

/// Adds a branch record, keyed by its arms; hits of a known branch are merged
/// index by index.
pub open spec fn add_branch_model(
    bs: Seq<(Seq<char>, Location, Seq<Location>, Seq<u32>)>,
    kind: Seq<char>,
    loc: Location,
    locations: Seq<Location>,
    hits: Seq<u32>,
) -> (Seq<(Seq<char>, Location, Seq<Location>, Seq<u32>)>, int) {
    if exists|i: int| 0 <= i < bs.len() && bs[i].2 == locations {
        let i = choose|i: int| 0 <= i < bs.len() && bs[i].2 == locations;
        (bs.update(i, (bs[i].0, bs[i].1, bs[i].2, merge_hits(bs[i].3, hits))), i)
    } else {
        (bs.push((kind, loc, locations, hits)), bs.len() as int)
    }
}

/// Coverage of one destination file under construction.
pub struct MappedCoverage {
    pub file_coverage: FileCoverage,
}

/// A coverage with no records and no source map.
pub open spec fn empty_coverage(fc: FileCoverage) -> bool {
    &&& fc.statement_map.len() == 0
    &&& fc.fn_map.len() == 0
    &&& fc.branch_map.len() == 0
    &&& fc.s.len() == 0
    &&& fc.f.len() == 0
    &&& fc.b.len() == 0
    &&& fc.input_source_map is None
}

impl MappedCoverage {
    /// An empty aggregator for the file `path`.
    pub fn new(path: String) -> (r: Self)
        ensures
            r.file_coverage.path@ == path@,
            empty_coverage(r.file_coverage),
            aggregated(r.file_coverage),
    {
        MappedCoverage {
            file_coverage: FileCoverage {
                path,
                statement_map: Vec::new(),
                fn_map: Vec::new(),
                branch_map: Vec::new(),
                s: Vec::new(),
                f: Vec::new(),
                b: Vec::new(),
                input_source_map: None,
            },
        }
    }

    /// Holds a file's coverage as it is.
    pub fn from_file_coverage(fc: FileCoverage) -> (r: Self)
        ensures
            r.file_coverage == fc,
    {
        MappedCoverage { file_coverage: fc }
    }

    /// Adds a statement; see `add_statement_model`.
    pub fn add_statement(&mut self, loc: Location, hits: u32) -> (r: usize)
        requires
            aggregated(old(self).file_coverage),
        ensures
            aggregated(final(self).file_coverage),
            (statements_of(final(self).file_coverage), r as int) == add_statement_model(
                statements_of(old(self).file_coverage),
                loc,
                hits,
            ),
            functions_of(final(self).file_coverage) == functions_of(old(self).file_coverage),
            branches_of(final(self).file_coverage) == branches_of(old(self).file_coverage),
            final(self).file_coverage.path == old(self).file_coverage.path,
            final(self).file_coverage.input_source_map == old(self).file_coverage.input_source_map,
    {
        let ghost st = statements_of(self.file_coverage);
        let ghost old_fc = self.file_coverage;
        let n = self.file_coverage.statement_map.len();
        match find_statement(&self.file_coverage.statement_map, &loc) {
            Some(i) => {
                let total = self.file_coverage.s[i].1.saturating_add(hits);
                let id = self.file_coverage.s[i].0.clone();
                self.file_coverage.s.set(i, (id, total));
                proof {
                    assert(st[i as int].0 == loc);
                    assert forall|j: int| 0 <= j < st.len() && st[j].0 == loc implies j == i by {
                        if j < i {
                            assert(self.file_coverage.statement_map@[j].1 != self.file_coverage.statement_map@[i as int].1);
                        } else if j > i {
                            assert(self.file_coverage.statement_map@[i as int].1 != self.file_coverage.statement_map@[j].1);
                        }
                    }
                    assert(statements_of(self.file_coverage) =~= st.update(i as int, (loc, add_hits(st[i as int].1, hits))));
                    let fc = self.file_coverage;
                    assert forall|k: int| 0 <= k < fc.statement_map.len() implies #[trigger] fc.statement_map@[k].0@ == decimal(k as nat) && fc.s@[k].0@ == decimal(k as nat) by {
                        if k < n {
                            assert(old_fc.statement_map@[k].0@ == decimal(k as nat));
                        }
                    }
                    assert(aggregated(self.file_coverage));
                }
                i
            },
            None => {
                let id = decimal_string(n);
                let id2 = decimal_string(n);
                let ghost old_sm = self.file_coverage.statement_map@;
                self.file_coverage.statement_map.push((id, loc));
                self.file_coverage.s.push((id2, hits));
                proof {
                    let sm = self.file_coverage.statement_map@;
                    assert forall|a: int, b: int| #![trigger sm[a], sm[b]] 0 <= a < b < sm.len() implies sm[a].1 != sm[b].1 by {
                        if b < n {
                            assert(old_sm[a] == sm[a] && old_sm[b] == sm[b]);
                        } else {
                            assert(old_sm[a] == sm[a]);
                        }
                    }
                    assert(!(exists|j: int| 0 <= j < st.len() && st[j].0 == loc));
                    assert(statements_of(self.file_coverage) =~= st.push((loc, hits)));
                    let fc = self.file_coverage;
                    assert forall|k: int| 0 <= k < fc.statement_map.len() implies #[trigger] fc.statement_map@[k].0@ == decimal(k as nat) && fc.s@[k].0@ == decimal(k as nat) by {
                        if k < n {
                            assert(old_fc.statement_map@[k].0@ == decimal(k as nat));
                        }
                    }
                    assert(aggregated(self.file_coverage));
                }
                n
            },
        }
    }
}

impl MappedCoverage {
    /// Adds a function; see `add_function_model`.
    pub fn add_function(&mut self, name: String, decl: Location, loc: Location, hits: u32) -> (r: usize)
        requires
            aggregated(old(self).file_coverage),
        ensures
            aggregated(final(self).file_coverage),
            (functions_of(final(self).file_coverage), r as int) == add_function_model(
                functions_of(old(self).file_coverage),
                name@,
                decl,
                loc,
                hits,
            ),
            statements_of(final(self).file_coverage) == statements_of(old(self).file_coverage),
            branches_of(final(self).file_coverage) == branches_of(old(self).file_coverage),
            final(self).file_coverage.path == old(self).file_coverage.path,
            final(self).file_coverage.input_source_map == old(self).file_coverage.input_source_map,
    {
        let ghost fs = functions_of(self.file_coverage);
        let ghost old_fc = self.file_coverage;
        let n = self.file_coverage.fn_map.len();
        match find_function(&self.file_coverage.fn_map, &decl) {
            Some(i) => {
                let total = self.file_coverage.f[i].1.saturating_add(hits);
                let id = self.file_coverage.f[i].0.clone();
                self.file_coverage.f.set(i, (id, total));
                proof {
                    assert(fs[i as int].1 == decl);
                    assert forall|j: int| 0 <= j < fs.len() && fs[j].1 == decl implies j == i by {
                        if j < i {
                            assert(old_fc.fn_map@[j].1.decl != old_fc.fn_map@[i as int].1.decl);
                        } else if j > i {
                            assert(old_fc.fn_map@[i as int].1.decl != old_fc.fn_map@[j].1.decl);
                        }
                    }
                    assert(functions_of(self.file_coverage) =~= fs.update(
                        i as int,
                        (fs[i as int].0, fs[i as int].1, fs[i as int].2, add_hits(fs[i as int].3, hits)),
                    ));
                    let fc = self.file_coverage;
                    assert forall|k: int| 0 <= k < fc.fn_map.len() implies #[trigger] fc.fn_map@[k].0@ == decimal(k as nat) && fc.f@[k].0@ == decimal(k as nat) by {
                        assert(old_fc.fn_map@[k].0@ == decimal(k as nat));
                    }
                }
                i
            },
            None => {
                let fn_name = if name.as_str().is_empty() {
                    unknown_function_name(n)
                } else {
                    name
                };
                let id = decimal_string(n);
                let id2 = decimal_string(n);
                let ghost old_m = self.file_coverage.fn_map@;
                self.file_coverage.fn_map.push((id, FunctionMeta { name: fn_name, decl, loc }));
                self.file_coverage.f.push((id2, hits));
                proof {
                    let m = self.file_coverage.fn_map@;
                    assert forall|a: int, b: int| #![trigger m[a], m[b]] 0 <= a < b < m.len() implies m[a].1.decl != m[b].1.decl by {
                        if b < n {
                            assert(old_m[a] == m[a] && old_m[b] == m[b]);
                        } else {
                            assert(old_m[a] == m[a]);
                        }
                    }
                    assert(!(exists|j: int| 0 <= j < fs.len() && fs[j].1 == decl));
                    assert(functions_of(self.file_coverage) =~= fs.push((fn_name@, decl, loc, hits)));
                    let fc = self.file_coverage;
                    assert forall|k: int| 0 <= k < fc.fn_map.len() implies #[trigger] fc.fn_map@[k].0@ == decimal(k as nat) && fc.f@[k].0@ == decimal(k as nat) by {
                        if k < n {
                            assert(old_fc.fn_map@[k].0@ == decimal(k as nat));
                        }
                    }
                }
                n
            },
        }
    }

    /// Adds a branch; see `add_branch_model`.
    pub fn add_branch(
        &mut self,
        branch_type: String,
        loc: Location,
        branch_locations: Vec<Location>,
        hits: Vec<u32>,
    ) -> (r: usize)
        requires
            aggregated(old(self).file_coverage),
        ensures
            aggregated(final(self).file_coverage),
            (branches_of(final(self).file_coverage), r as int) == add_branch_model(
                branches_of(old(self).file_coverage),
                branch_type@,
                loc,
                branch_locations@,
                hits@,
            ),
            statements_of(final(self).file_coverage) == statements_of(old(self).file_coverage),
            functions_of(final(self).file_coverage) == functions_of(old(self).file_coverage),
            final(self).file_coverage.path == old(self).file_coverage.path,
            final(self).file_coverage.input_source_map == old(self).file_coverage.input_source_map,
    {
        let ghost bs = branches_of(self.file_coverage);
        let ghost old_fc = self.file_coverage;
        let n = self.file_coverage.branch_map.len();
        match find_branch(&self.file_coverage.branch_map, &branch_locations) {
            Some(i) => {
                let merged = merge_hit_counts(&self.file_coverage.b[i].1, &hits);
                let id = self.file_coverage.b[i].0.clone();
                self.file_coverage.b.set(i, (id, merged));
                proof {
                    assert(bs[i as int].2 == branch_locations@);
                    assert forall|j: int| 0 <= j < bs.len() && bs[j].2 == branch_locations@ implies j == i by {
                        if j < i {
                            assert(old_fc.branch_map@[j].1.locations@ != old_fc.branch_map@[i as int].1.locations@);
                        } else if j > i {
                            assert(old_fc.branch_map@[i as int].1.locations@ != old_fc.branch_map@[j].1.locations@);
                        }
                    }
                    assert(branches_of(self.file_coverage) =~= bs.update(
                        i as int,
                        (bs[i as int].0, bs[i as int].1, bs[i as int].2, merge_hits(bs[i as int].3, hits@)),
                    ));
                    let fc = self.file_coverage;
                    assert forall|k: int| 0 <= k < fc.branch_map.len() implies #[trigger] fc.branch_map@[k].0@ == decimal(k as nat) && fc.b@[k].0@ == decimal(k as nat) by {
                        assert(old_fc.branch_map@[k].0@ == decimal(k as nat));
                    }
                }
                i
            },
            None => {
                let id = decimal_string(n);
                let id2 = decimal_string(n);
                let ghost old_m = self.file_coverage.branch_map@;
                let ghost locs = branch_locations@;
                let ghost kind = branch_type@;
                let ghost hv = hits@;
                self.file_coverage.branch_map.push(
                    (id, BranchMeta { branch_type, loc, locations: branch_locations }),
                );
                self.file_coverage.b.push((id2, hits));
                proof {
                    let m = self.file_coverage.branch_map@;
                    assert forall|a: int, b: int| #![trigger m[a], m[b]] 0 <= a < b < m.len() implies m[a].1.locations@ != m[b].1.locations@ by {
                        if b < n {
                            assert(old_m[a] == m[a] && old_m[b] == m[b]);
                        } else {
                            assert(old_m[a] == m[a]);
                        }
                    }
                    assert(!(exists|j: int| 0 <= j < bs.len() && bs[j].2 == locs));
                    assert(branches_of(self.file_coverage) =~= bs.push((kind, loc, locs, hv)));
                    let fc = self.file_coverage;
                    assert forall|k: int| 0 <= k < fc.branch_map.len() implies #[trigger] fc.branch_map@[k].0@ == decimal(k as nat) && fc.b@[k].0@ == decimal(k as nat) by {
                        if k < n {
                            assert(old_fc.branch_map@[k].0@ == decimal(k as nat));
                        }
                    }
                }
                n
            },
        }
    }
}

/// `(unknown_<id>)`.
fn unknown_function_name(id: usize) -> (r: String)
    ensures
        r@ == unknown_name(id as nat),
{
    let digits = decimal_string(id);
    let mut r = "(unknown_".to_owned();
    r.append(digits.as_str());
    r.append(")");
    proof {
        reveal_strlit("(unknown_");
        reveal_strlit(")");
        assert(r@ =~= unknown_name(id as nat));
    }
    r
}

/// The index of the function whose declaration is `decl`, if any.
fn find_function(m: &Vec<(String, FunctionMeta)>, decl: &Location) -> (r: Option<usize>)
    ensures
        match r {
            Some(i) => i < m.len() && m@[i as int].1.decl == *decl,
            None => forall|j: int| 0 <= j < m.len() ==> m@[j].1.decl != *decl,
        },
{
    let mut i: usize = 0;
    while i < m.len()
        invariant
            i <= m.len(),
            forall|j: int| 0 <= j < i ==> m@[j].1.decl != *decl,
        decreases m.len() - i,
    {
        if m[i].1.decl == *decl {
            return Some(i);
        }
        i = i + 1;
    }
    None
}

/// Whether two sequences of locations are equal.
fn same_locations(a: &Vec<Location>, b: &Vec<Location>) -> (r: bool)
    ensures
        r == (a@ == b@),
{
    if a.len() != b.len() {
        return false;
    }
    let mut i: usize = 0;
    while i < a.len()
        invariant
            i <= a.len() == b.len(),
            forall|j: int| 0 <= j < i ==> a@[j] == b@[j],
        decreases a.len() - i,
    {
        if a[i] != b[i] {
            return false;
        }
        i = i + 1;
    }
    proof {
        assert(a@ =~= b@);
    }
    true
}

/// The index of the branch whose arms are `locs`, if any.
fn find_branch(m: &Vec<(String, BranchMeta)>, locs: &Vec<Location>) -> (r: Option<usize>)
    ensures
        match r {
            Some(i) => i < m.len() && m@[i as int].1.locations@ == locs@,
            None => forall|j: int| 0 <= j < m.len() ==> m@[j].1.locations@ != locs@,
        },
{
    let mut i: usize = 0;
    while i < m.len()
        invariant
            i <= m.len(),
            forall|j: int| 0 <= j < i ==> m@[j].1.locations@ != locs@,
        decreases m.len() - i,
    {
        if same_locations(&m[i].1.locations, locs) {
            return Some(i);
        }
        i = i + 1;
    }
    None
}

/// `merge_hits` on vectors.
fn merge_hit_counts(existing: &Vec<u32>, incoming: &Vec<u32>) -> (r: Vec<u32>)
    ensures
        r@ == merge_hits(existing@, incoming@),
{
    let mut out: Vec<u32> = Vec::new();
    let mut i: usize = 0;
    while i < existing.len()
        invariant
            i <= existing.len(),
            out@ =~= merge_hits(existing@, incoming@).take(i as int),
        decreases existing.len() - i,
    {
        let h = if i < incoming.len() {
            existing[i].saturating_add(incoming[i])
        } else {
            existing[i]
        };
        out.push(h);
        i = i + 1;
    }
    out
}

/// The index of the entry whose location is `loc`, if any.
fn find_statement(m: &Vec<(String, Location)>, loc: &Location) -> (r: Option<usize>)
    ensures
        match r {
            Some(i) => i < m.len() && m@[i as int].1 == *loc,
            None => forall|j: int| 0 <= j < m.len() ==> m@[j].1 != *loc,
        },
{
    let mut i: usize = 0;
    while i < m.len()
        invariant
            i <= m.len(),
            forall|j: int| 0 <= j < i ==> m@[j].1 != *loc,
        decreases m.len() - i,
    {
        if m[i].1 == *loc {
            return Some(i);
        }
        i = i + 1;
    }
    None
}

/// Adding one statement location twice, to an aggregator without a record
/// of it, leaves a single record of it whose hits are the sum of both, and
/// both additions return the same id.
pub proof fn lemma_statement_dedup(st: Seq<(Location, u32)>, loc: Location, h1: u32, h2: u32)
    requires
        forall|i: int| 0 <= i < st.len() ==> st[i].0 != loc,
        h1 + h2 <= u32::MAX,
    ensures
        ({
            let (s1, i1) = add_statement_model(st, loc, h1);
            let (s2, i2) = add_statement_model(s1, loc, h2);
            &&& i1 == i2
            &&& s1.len() == st.len() + 1
            &&& s2.len() == s1.len()
            &&& s2[i2] == (loc, (h1 + h2) as u32)
            &&& forall|j: int| 0 <= j < s2.len() && j != i2 ==> s2[j].0 != loc
        }),
{
    let (s1, i1) = add_statement_model(st, loc, h1);
    assert(s1 == st.push((loc, h1)) && i1 == st.len());
    assert(s1[i1].0 == loc);
    let i = choose|i: int| 0 <= i < s1.len() && s1[i].0 == loc;
    assert(i == i1);
}

/// Adding one branch twice, to an aggregator without a record of its arms,
/// leaves a single record whose hits are the index-by-index sums of both
/// hit sequences, and both additions return the same id.
pub proof fn lemma_branch_hits_summed(
    bs: Seq<(Seq<char>, Location, Seq<Location>, Seq<u32>)>,
    kind: Seq<char>,
    loc: Location,
    locations: Seq<Location>,
    h1: Seq<u32>,
    h2: Seq<u32>,
)
    requires
        forall|i: int| 0 <= i < bs.len() ==> bs[i].2 != locations,
        h1.len() == h2.len(),
        forall|k: int| 0 <= k < h1.len() ==> h1[k] + h2[k] <= u32::MAX,
    ensures
        ({
            let (b1, i1) = add_branch_model(bs, kind, loc, locations, h1);
            let (b2, i2) = add_branch_model(b1, kind, loc, locations, h2);
            &&& i1 == i2
            &&& b1.len() == bs.len() + 1
            &&& b2.len() == b1.len()
            &&& b2[i2].3.len() == h1.len()
            &&& forall|k: int| 0 <= k < h1.len() ==> b2[i2].3[k] == h1[k] + h2[k]
            &&& forall|j: int| 0 <= j < b2.len() && j != i2 ==> b2[j].2 != locations
        }),
{
    let (b1, i1) = add_branch_model(bs, kind, loc, locations, h1);
    assert(b1 == bs.push((kind, loc, locations, h1)) && i1 == bs.len());
    assert(b1[i1].2 == locations);
    let i = choose|i: int| 0 <= i < b1.len() && b1[i].2 == locations;
    assert(i == i1);
}

} // verus!
