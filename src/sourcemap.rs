//! Decoding of a source map's mapping table, and lookup of original positions.
use vstd::prelude::*;
use crate::vlq::{base64_digit, decode_segment, lemma_invalid_char_fails_segment, lemma_values_nonempty, segment_values, values_view, DecodeError, VLQ_BOUND};
use crate::{option_string_view, strings_view, Location, Mapping, Position, SourceMap};

verus! {

/// The pieces of `s` between occurrences of `sep` (one piece more than separators).
pub open spec fn split_on(s: Seq<char>, sep: char) -> Seq<Seq<char>>
    decreases s.len(),
{
    if s.len() == 0 {
        seq![seq![]]
    } else {
        let init = split_on(s.drop_last(), sep);
        if s.last() == sep {
            init.push(seq![])
        } else {
            init.update(init.len() - 1, init.last().push(s.last()))
        }
    }
}

/// The characters of each piece.
pub open spec fn pieces_view(v: Seq<Vec<char>>) -> Seq<Seq<char>> {
    v.map_values(|p: Vec<char>| p@)
}

proof fn lemma_split_nonempty(s: Seq<char>, sep: char)
    ensures
        split_on(s, sep).len() >= 1,
    decreases s.len(),
{
    if s.len() > 0 {
        lemma_split_nonempty(s.drop_last(), sep);
    }
}

/// Splits `s` at every `sep`.
pub fn split_chars(s: &Vec<char>, sep: char) -> (r: Vec<Vec<char>>)
    ensures
        pieces_view(r@) == split_on(s@, sep),
{
    let mut done: Vec<Vec<char>> = Vec::new();
    let mut cur: Vec<char> = Vec::new();
    let mut i: usize = 0;
    while i < s.len()
        invariant
            i <= s.len(),
            pieces_view(done@).push(cur@) == split_on(s@.take(i as int), sep),
        decreases s.len() - i,
    {
        proof {
            assert(s@.take(i + 1).drop_last() == s@.take(i as int));
            lemma_split_nonempty(s@.take(i as int), sep);
        }
        if s[i] == sep {
            let full = cur;
            cur = Vec::new();
            done.push(full);
            proof {
                assert(pieces_view(done@) == pieces_view(done@.drop_last()).push(full@));
            }
        } else {
            cur.push(s[i]);
            proof {
                assert(pieces_view(done@).push(cur@) =~= split_on(s@.take(i + 1), sep));
            }
        }
        i = i + 1;
    }
    proof {
        assert(s@.take(s.len() as int) == s@);
    }
    done.push(cur);
    proof {
        assert(pieces_view(done@) =~= split_on(s@, sep));
    }
    done
}

/// The characters of a string.
pub fn chars_of(s: &String) -> (r: Vec<char>)
    ensures
        r@ == s@,
{
    chars_of_str(s.as_str())
}

/// The characters of a string slice.
pub fn chars_of_str(s: &str) -> (r: Vec<char>)
    ensures
        r@ == s@,
{
    broadcast use vstd::string::axiom_spec_iter;
    let mut out: Vec<char> = Vec::new();
    for c in it: s.chars()
        invariant
            out@ == it.seq().take(it.index()),
    {
        out.push(c);
    }
    out
}

/// The range of the running totals: that of a 32-bit signed integer.
pub const I32_MIN: i64 = -2147483648;
pub const I32_MAX: i64 = 2147483647;

/// One decoded segment, with absolute fields.
#[derive(Clone, Debug)]
pub struct MappingSegment {
    pub generated_line: usize,
    pub generated_column: u32,
    pub source: Option<String>,
    pub original_line: u32,
    pub original_column: u32,
    pub name: Option<String>,
}

/// A decoded segment as plain values.
pub struct SegmentView {
    pub generated_line: int,
    pub generated_column: int,
    pub source: Option<Seq<char>>,
    pub original_line: int,
    pub original_column: int,
    pub name: Option<Seq<char>>,
}

impl View for MappingSegment {
    type V = SegmentView;

    open spec fn view(&self) -> SegmentView {
        SegmentView {
            generated_line: self.generated_line as int,
            generated_column: self.generated_column as int,
            source: option_string_view(self.source),
            original_line: self.original_line as int,
            original_column: self.original_column as int,
            name: option_string_view(self.name),
        }
    }
}

/// The segments of one line as plain values.
pub open spec fn line_view(l: Seq<MappingSegment>) -> Seq<SegmentView> {
    l.map_values(|m: MappingSegment| m@)
}

/// A decoded table as plain values.
pub open spec fn table_view(t: Seq<Vec<MappingSegment>>) -> Seq<Seq<SegmentView>> {
    t.map_values(|l: Vec<MappingSegment>| line_view(l@))
}

/// The running totals that segments carry as deltas across the whole table.
#[derive(Clone, Copy)]
pub struct RunningTotals {
    pub source: i64,
    pub line: i64,
    pub column: i64,
    pub name: i64,
}

/// The totals before the first segment.
pub open spec fn zero_totals() -> RunningTotals {
    RunningTotals { source: 0, line: 0, column: 0, name: 0 }
}

/// Value `k` of a segment, or a zero delta where the segment is shorter.
pub open spec fn value_or_zero(v: Seq<int>, k: int) -> int {
    if k < v.len() {
        v[k]
    } else {
        0
    }
}

/// Entry `i` of `v`, where `i` is in bounds.
pub open spec fn index_in(i: int, v: Seq<Seq<char>>) -> Option<Seq<char>> {
    if 0 <= i < v.len() {
        Some(v[i])
    } else {
        None
    }
}

/// Applies one segment's values (generated-column, source, line, column and
/// name deltas) to the running totals of line `line`, whose generated column
/// so far is `gen`.
pub open spec fn apply_segment(
    vals: Seq<int>,
    line: int,
    gen: int,
    t: RunningTotals,
    sources: Seq<Seq<char>>,
    names: Seq<Seq<char>>,
) -> Result<(SegmentView, int, RunningTotals), DecodeError> {
    let g = gen + value_or_zero(vals, 0);
    if !(0 <= g <= I32_MAX) {
        Err(DecodeError::OutOfRange)
    } else if vals.len() < 2 {
        Ok((SegmentView {
            generated_line: line,
            generated_column: g,
            source: None,
            original_line: 0,
            original_column: 0,
            name: None,
        }, g, t))
    } else {
        let src = t.source + vals[1];
        let ol = t.line + value_or_zero(vals, 2);
        let oc = t.column + value_or_zero(vals, 3);
        let nm = t.name + value_or_zero(vals, 4);
        if !(I32_MIN <= src <= I32_MAX && 0 <= ol <= I32_MAX && 0 <= oc <= I32_MAX && I32_MIN <= nm
            <= I32_MAX) {
            Err(DecodeError::OutOfRange)
        } else {
            Ok((SegmentView {
                generated_line: line,
                generated_column: g,
                source: index_in(src, sources),
                original_line: ol,
                original_column: oc,
                name: if vals.len() >= 5 {
                    index_in(nm, names)
                } else {
                    None
                },
            }, g, RunningTotals { source: src as i64, line: ol as i64, column: oc as i64, name: nm as i64 }))
        }
    }
}

/// Decodes the segments of line `line`, skipping empty ones; the generated
/// column starts again at zero, the other totals go on from `t`.
pub open spec fn decode_line(
    segs: Seq<Seq<char>>,
    line: int,
    t: RunningTotals,
    sources: Seq<Seq<char>>,
    names: Seq<Seq<char>>,
) -> Result<(Seq<SegmentView>, int, RunningTotals), DecodeError>
    decreases segs.len(),
{
    if segs.len() == 0 {
        Ok((seq![], 0, t))
    } else {
        match decode_line(segs.drop_last(), line, t, sources, names) {
            Err(e) => Err(e),
            Ok((out, g, t1)) => if segs.last().len() == 0 {
                Ok((out, g, t1))
            } else {
                match segment_values(segs.last(), 0) {
                    Err(e) => Err(e),
                    Ok(vals) => match apply_segment(vals, line, g, t1, sources, names) {
                        Err(e) => Err(e),
                        Ok((sv, g2, t2)) => Ok((out.push(sv), g2, t2)),
                    },
                }
            },
        }
    }
}

/// Decodes lines (the pieces between `;`), each split at `,` into segments.
pub open spec fn decode_table(
    lines: Seq<Seq<char>>,
    sources: Seq<Seq<char>>,
    names: Seq<Seq<char>>,
) -> Result<(Seq<Seq<SegmentView>>, RunningTotals), DecodeError>
    decreases lines.len(),
{
    if lines.len() == 0 {
        Ok((seq![], zero_totals()))
    } else {
        match decode_table(lines.drop_last(), sources, names) {
            Err(e) => Err(e),
            Ok((tab, t)) => match decode_line(
                split_on(lines.last(), ','),
                lines.len() - 1,
                t,
                sources,
                names,
            ) {
                Err(e) => Err(e),
                Ok((segs, _, t2)) => Ok((tab.push(segs), t2)),
            },
        }
    }
}

/// The decoded table of a source map: one sequence of segments per generated line.
pub open spec fn mapping_table(sm: SourceMap) -> Result<Seq<Seq<SegmentView>>, DecodeError> {
    match decode_table(split_on(sm.mappings@, ';'), strings_view(sm.sources@), strings_view(sm.names@)) {
        Ok((tab, _)) => Ok(tab),
        Err(e) => Err(e),
    }
}

fn name_at(v: &Vec<String>, i: i64) -> (r: Option<String>)
    requires
        I32_MIN <= i <= I32_MAX,
    ensures
        option_string_view(r) == index_in(i as int, strings_view(v@)),
{
    if 0 <= i && (i as usize) < v.len() {
        Some(v[i as usize].clone())
    } else {
        None
    }
}

/// Applies one segment's decoded values; see `apply_segment`.
fn apply_values(
    vals: &Vec<i64>,
    line: usize,
    gen: i64,
    t: RunningTotals,
    sm: &SourceMap,
) -> (r: Result<(MappingSegment, i64, RunningTotals), DecodeError>)
    requires
        vals.len() >= 1,
        forall|k: int| 0 <= k < vals.len() ==> -VLQ_BOUND < #[trigger] vals@[k] < VLQ_BOUND,
        0 <= gen <= I32_MAX,
        I32_MIN <= t.source <= I32_MAX,
        I32_MIN <= t.line <= I32_MAX,
        I32_MIN <= t.column <= I32_MAX,
        I32_MIN <= t.name <= I32_MAX,
    ensures
        match (r, apply_segment(values_view(vals@), line as int, gen as int, t, strings_view(sm.sources@), strings_view(sm.names@))) {
            (Ok((m, g, t2)), Ok((sv, sg, st))) => m@ == sv && g == sg && t2 == st,
            (Err(a), Err(b)) => a == b,
            _ => false,
        },
        r matches Ok((m, _, _)) ==> m.original_line <= I32_MAX,
        r matches Ok((_, g, t2)) ==> 0 <= g <= I32_MAX && I32_MIN <= t2.source <= I32_MAX
            && I32_MIN <= t2.line <= I32_MAX && I32_MIN <= t2.column <= I32_MAX
            && I32_MIN <= t2.name <= I32_MAX,
{
    let ghost vv = values_view(vals@);
    let n = vals.len();
    let g = gen + vals[0];
    if !(0 <= g && g <= I32_MAX) {
        return Err(DecodeError::OutOfRange);
    }
    if n < 2 {
        let m = MappingSegment {
            generated_line: line,
            generated_column: g as u32,
            source: None,
            original_line: 0,
            original_column: 0,
            name: None,
        };
        return Ok((m, g, t));
    }
    let src = t.source + vals[1];
    let ol = t.line + if n >= 3 { vals[2] } else { 0 };
    let oc = t.column + if n >= 4 { vals[3] } else { 0 };
    let nm = t.name + if n >= 5 { vals[4] } else { 0 };
    if !(I32_MIN <= src && src <= I32_MAX && 0 <= ol && ol <= I32_MAX && 0 <= oc && oc <= I32_MAX
        && I32_MIN <= nm && nm <= I32_MAX) {
        return Err(DecodeError::OutOfRange);
    }
    let name = if n >= 5 { name_at(&sm.names, nm) } else { None };
    let m = MappingSegment {
        generated_line: line,
        generated_column: g as u32,
        source: name_at(&sm.sources, src),
        original_line: ol as u32,
        original_column: oc as u32,
        name,
    };
    Ok((m, g, RunningTotals { source: src, line: ol, column: oc, name: nm }))
}

/// Every running total lies in the 32-bit signed range.
pub open spec fn totals_in_range(t: RunningTotals) -> bool {
    I32_MIN <= t.source <= I32_MAX && I32_MIN <= t.line <= I32_MAX && I32_MIN <= t.column
        <= I32_MAX && I32_MIN <= t.name <= I32_MAX
}

/// Decodes the segments of one line; see `decode_line`.
fn decode_line_exec(
    line: &Vec<char>,
    line_index: usize,
    t: RunningTotals,
    sm: &SourceMap,
) -> (r: Result<(Vec<MappingSegment>, RunningTotals), DecodeError>)
    requires
        totals_in_range(t),
    ensures
        match (r, decode_line(split_on(line@, ','), line_index as int, t, strings_view(sm.sources@), strings_view(sm.names@))) {
            (Ok((segs, t2)), Ok((ssegs, _, st))) => line_view(segs@) == ssegs && t2 == st,
            (Err(a), Err(b)) => a == b,
            _ => false,
        },
        r matches Ok((_, t2)) ==> totals_in_range(t2),
        r matches Ok((segs, _)) ==> forall|j: int| 0 <= j < segs.len() ==> #[trigger] segs@[j].original_line <= I32_MAX,
{
    let ghost sources = strings_view(sm.sources@);
    let ghost names = strings_view(sm.names@);
    let segs = split_chars(line, ',');
    let ghost sv = pieces_view(segs@);
    let mut out: Vec<MappingSegment> = Vec::new();
    let mut gen: i64 = 0;
    let mut cur = t;
    let mut k: usize = 0;
    proof {
        assert(sv.take(0) =~= seq![]);
        assert(line_view(out@) =~= seq![]);
    }
    while k < segs.len()
        invariant
            k <= segs.len(),
            sv == pieces_view(segs@),
            sources == strings_view(sm.sources@),
            names == strings_view(sm.names@),
            sv == split_on(line@, ','),
            0 <= gen <= I32_MAX,
            totals_in_range(cur),
            forall|j: int| 0 <= j < out.len() ==> #[trigger] out@[j].original_line <= I32_MAX,
            decode_line(sv.take(k as int), line_index as int, t, sources, names) == Ok::<
                (Seq<SegmentView>, int, RunningTotals),
                DecodeError,
            >((line_view(out@), gen as int, cur)),
        decreases segs.len() - k,
    {
        proof {
            assert(sv.take(k + 1).drop_last() == sv.take(k as int));
            assert(sv.take(k + 1).last() == segs[k as int]@);
        }
        if segs[k].len() > 0 {
            let vals = match decode_segment(&segs[k]) {
                Ok(v) => v,
                Err(e) => {
                    proof {
                        lemma_line_prefix_err(sv, k + 1, line_index as int, t, sources, names);
                    }
                    return Err(e);
                },
            };
            proof {
                if vals.len() == 0 {
                    let sg = segs[k as int]@;
                    lemma_values_nonempty(sg);
                }
            }
            let (m, g, t2) = match apply_values(&vals, line_index, gen, cur, sm) {
                Ok(x) => x,
                Err(e) => {
                    proof {
                        lemma_line_prefix_err(sv, k + 1, line_index as int, t, sources, names);
                    }
                    return Err(e);
                },
            };
            let ghost old_out = line_view(out@);
            out.push(m);
            proof {
                assert(line_view(out@) =~= old_out.push(m@));
                let pre = sv.take(k + 1);
                assert(pre.last() == segs[k as int]@);
                assert(segment_values(pre.last(), 0) == Ok::<Seq<int>, DecodeError>(values_view(vals@)));
                assert(decode_line(pre.drop_last(), line_index as int, t, sources, names) == Ok::<
                (Seq<SegmentView>, int, RunningTotals),
                DecodeError,
            >((old_out, gen as int, cur)));
            }
            gen = g;
            cur = t2;
        }
        k = k + 1;
    }
    proof {
        assert(sv.take(segs.len() as int) == sv);
    }
    Ok((out, cur))
}

proof fn lemma_line_prefix_err(
    segs: Seq<Seq<char>>,
    n: int,
    line: int,
    t: RunningTotals,
    sources: Seq<Seq<char>>,
    names: Seq<Seq<char>>,
)
    requires
        0 <= n <= segs.len(),
        decode_line(segs.take(n), line, t, sources, names) is Err,
    ensures
        decode_line(segs, line, t, sources, names) == decode_line(segs.take(n), line, t, sources, names),
    decreases segs.len(),
{
    if n == segs.len() {
        assert(segs.take(n) == segs);
    } else {
        assert(segs.drop_last().take(n) == segs.take(n));
        lemma_line_prefix_err(segs.drop_last(), n, line, t, sources, names);
    }
}

proof fn lemma_table_prefix_err(
    lines: Seq<Seq<char>>,
    n: int,
    sources: Seq<Seq<char>>,
    names: Seq<Seq<char>>,
)
    requires
        0 <= n <= lines.len(),
        decode_table(lines.take(n), sources, names) is Err,
    ensures
        decode_table(lines, sources, names) == decode_table(lines.take(n), sources, names),
    decreases lines.len(),
{
    if n == lines.len() {
        assert(lines.take(n) == lines);
    } else {
        assert(lines.drop_last().take(n) == lines.take(n));
        lemma_table_prefix_err(lines.drop_last(), n, sources, names);
    }
}


/// Decodes a source map's mapping table.
pub struct SourceMapDecoder {
    pub source_map: SourceMap,
}

impl SourceMapDecoder {
    pub fn new(source_map: SourceMap) -> (r: Self)
        ensures
            r.source_map == source_map,
    {
        SourceMapDecoder { source_map }
    }

    /// Decodes the mapping table: for each generated line (the pieces between
    /// `;`), its segments (the non-empty pieces between `,`), with absolute
    /// fields. Any malformed value fails the whole table.
    pub fn parse_mappings(&self) -> (r: Result<Vec<Vec<MappingSegment>>, DecodeError>)
        ensures
            match (r, mapping_table(self.source_map)) {
                (Ok(t), Ok(st)) => table_view(t@) == st,
                (Err(a), Err(b)) => a == b,
                _ => false,
            },
            r matches Ok(t) ==> table_lines_bounded(table_view(t@)),
    {
        parse_source_map(&self.source_map)
    }
}

/// Decodes the mapping table of `sm`; see `SourceMapDecoder::parse_mappings`.
pub fn parse_source_map(sm: &SourceMap) -> (r: Result<Vec<Vec<MappingSegment>>, DecodeError>)
    ensures
        match (r, mapping_table(*sm)) {
            (Ok(t), Ok(st)) => table_view(t@) == st,
            (Err(a), Err(b)) => a == b,
            _ => false,
        },
        r matches Ok(t) ==> table_lines_bounded(table_view(t@)),
{
    let ghost sources = strings_view(sm.sources@);
    let ghost names = strings_view(sm.names@);
    let chars = chars_of(&sm.mappings);
    let lines = split_chars(&chars, ';');
    let ghost lv = pieces_view(lines@);
    let mut out: Vec<Vec<MappingSegment>> = Vec::new();
    let mut cur = RunningTotals { source: 0, line: 0, column: 0, name: 0 };
    let mut i: usize = 0;
    proof {
        assert(lv.take(0) =~= seq![]);
        assert(table_view(out@) =~= seq![]);
    }
    while i < lines.len()
        invariant
            i <= lines.len(),
            lv == pieces_view(lines@),
            
            sources == strings_view(sm.sources@),
            names == strings_view(sm.names@),
            lv == split_on(sm.mappings@, ';'),
            totals_in_range(cur),
            forall|a: int, b: int| 0 <= a < out.len() && 0 <= b < out@[a].len() ==> #[trigger] out@[a]@[b].original_line <= I32_MAX,
            decode_table(lv.take(i as int), sources, names) == Ok::<
                (Seq<Seq<SegmentView>>, RunningTotals),
                DecodeError,
            >((table_view(out@), cur)),
        decreases lines.len() - i,
    {
        proof {
            assert(lv.take(i + 1).drop_last() == lv.take(i as int));
            assert(lv.take(i + 1).last() == lines[i as int]@);
        }
        let (segs, t2) = match decode_line_exec(&lines[i], i, cur, sm) {
            Ok(x) => x,
            Err(e) => {
                proof {
                    let pre = lv.take(i + 1);
                    assert(pre.len() - 1 == i);
                    assert(pre.last() == lines[i as int]@);
                    assert(decode_table(pre.drop_last(), sources, names) == Ok::<
                        (Seq<Seq<SegmentView>>, RunningTotals),
                        DecodeError,
                    >((table_view(out@), cur)));
                    assert(decode_table(pre, sources, names) == Err::<
                        (Seq<Seq<SegmentView>>, RunningTotals),
                        DecodeError,
                    >(e));
                    lemma_table_prefix_err(lv, i + 1, sources, names);

                }
                return Err(e);
            },
        };
        let ghost old_out = table_view(out@);
        out.push(segs);
        proof {
            assert(table_view(out@) =~= old_out.push(line_view(segs@)));
            let pre = lv.take(i + 1);
            assert(pre.last() == lines[i as int]@);
            assert(decode_table(pre.drop_last(), sources, names) == Ok::<
                (Seq<Seq<SegmentView>>, RunningTotals),
                DecodeError,
            >((old_out, cur)));
        }
        cur = t2;
        i = i + 1;
    }
    proof {
        assert(lv.take(lines.len() as int) == lv);
        let tv = table_view(out@);
        assert forall|a: int, b: int| 0 <= a < tv.len() && 0 <= b < tv[a].len() implies 0 <= #[trigger] tv[a][b].original_line <= I32_MAX by {
            assert(tv[a] == line_view(out@[a]@));
            assert(tv[a][b] == out@[a]@[b]@);
        }
    }
    Ok(out)
}

/// The original position that a generated position resolves to.
#[derive(Clone, Debug)]
pub struct OriginalPosition {
    pub source: String,
    pub line: u32,
    pub column: u32,
    pub name: Option<String>,
}

/// The index of the segment with the greatest generated column not above
/// `col` among the first `n` segments (the earliest on a tie), or -1.
pub open spec fn best_segment(segs: Seq<SegmentView>, col: int, n: int) -> int
    decreases n,
{
    if n <= 0 {
        -1
    } else {
        let b = best_segment(segs, col, n - 1);
        if segs[n - 1].generated_column <= col && (b < 0 || segs[n - 1].generated_column
            > segs[b].generated_column) {
            n - 1
        } else {
            b
        }
    }
}

/// The segment that `best_segment` picks has the greatest generated column
/// not above `col`, and no earlier segment has that column; where it picks
/// none, every segment lies beyond `col`.
pub proof fn lemma_best_segment_is_greatest(segs: Seq<SegmentView>, col: int, n: int)
    requires
        0 <= n <= segs.len(),
    ensures
        ({
            let k = best_segment(segs, col, n);
            &&& -1 <= k < n
            &&& k < 0 ==> forall|j: int| 0 <= j < n ==> #[trigger] segs[j].generated_column > col
            &&& k >= 0 ==> segs[k].generated_column <= col
            &&& k >= 0 ==> forall|j: int|
                0 <= j < n && #[trigger] segs[j].generated_column <= col ==> segs[j].generated_column
                    <= segs[k].generated_column
            &&& k >= 0 ==> forall|j: int| 0 <= j < k ==> #[trigger] segs[j].generated_column != segs[k].generated_column
        }),
    decreases n,
{
    if n > 0 {
        lemma_best_segment_is_greatest(segs, col, n - 1);
    }
}

/// Resolves a generated position (1-based line, 0-based column) against a
/// decoded table: the segment of that line with the greatest generated column
/// not above `column`. `None` where no segment qualifies or it has no source.
/// The original line is returned 1-based; the name is the segment's, if any.
///
/// This is a real lookup in the decoded table: a position with no segment is
/// not attributed to any source.
pub open spec fn resolve(table: Seq<Seq<SegmentView>>, line: int, column: int) -> Option<(Seq<char>, int, int, Option<Seq<char>>)> {
    if line < 1 || line > table.len() {
        None
    } else {
        let segs = table[line - 1];
        let k = best_segment(segs, column, segs.len() as int);
        if k < 0 {
            None
        } else {
            match segs[k].source {
                None => None,
                Some(src) => Some((src, segs[k].original_line + 1, segs[k].original_column, segs[k].name)),
            }
        }
    }
}

/// A decoded table is well formed: every original line fits a 1-based `u32`.
pub open spec fn table_lines_bounded(table: Seq<Seq<SegmentView>>) -> bool {
    forall|i: int, j: int|
        0 <= i < table.len() && 0 <= j < table[i].len() ==> 0 <= #[trigger] table[i][j].original_line
            <= I32_MAX
}


proof fn lemma_line_bounded(
    segs: Seq<Seq<char>>,
    line: int,
    t: RunningTotals,
    sources: Seq<Seq<char>>,
    names: Seq<Seq<char>>,
)
    ensures
        decode_line(segs, line, t, sources, names) matches Ok((out, _, _)) ==> forall|j: int|
            0 <= j < out.len() ==> 0 <= #[trigger] out[j].original_line <= I32_MAX,
    decreases segs.len(),
{
    if segs.len() > 0 {
        lemma_line_bounded(segs.drop_last(), line, t, sources, names);
    }
}

proof fn lemma_table_bounded(lines: Seq<Seq<char>>, sources: Seq<Seq<char>>, names: Seq<Seq<char>>)
    ensures
        decode_table(lines, sources, names) matches Ok((tab, _)) ==> table_lines_bounded(tab),
    decreases lines.len(),
{
    if lines.len() > 0 {
        lemma_table_bounded(lines.drop_last(), sources, names);
        if let Ok((tab, t)) = decode_table(lines.drop_last(), sources, names) {
            lemma_line_bounded(split_on(lines.last(), ','), lines.len() - 1, t, sources, names);
        }
    }
}

impl SourceMapDecoder {
    /// Resolves a generated position against `table`, this map's decoded
    /// table (as `parse_mappings` returns it).
    pub fn get_original_position(
        &self,
        table: &Vec<Vec<MappingSegment>>,
        line: u32,
        column: u32,
    ) -> (r: Option<OriginalPosition>)
        requires
            mapping_table(self.source_map) == Ok::<Seq<Seq<SegmentView>>, DecodeError>(table_view(table@)),
        ensures
            match (r, resolve(table_view(table@), line as int, column as int)) {
                (Some(p), Some((src, l, c, n))) => p.source@ == src && p.line == l && p.column == c
                    && option_string_view(p.name) == n,
                (None, None) => true,
                _ => false,
            },
    {
        proof {
            let sm = self.source_map;
            lemma_table_bounded(split_on(sm.mappings@, ';'), strings_view(sm.sources@), strings_view(sm.names@));
        }
        get_original_position_in(table, line, column)
    }
}

/// Resolves a generated position against a decoded table; see `resolve`.
pub fn get_original_position_in(
    table: &Vec<Vec<MappingSegment>>,
    line: u32,
    column: u32,
) -> (r: Option<OriginalPosition>)
    requires
        table_lines_bounded(table_view(table@)),
    ensures
        match (r, resolve(table_view(table@), line as int, column as int)) {
            (Some(p), Some((src, l, c, n))) => p.source@ == src && p.line == l && p.column == c
                && option_string_view(p.name) == n,
            (None, None) => true,
            _ => false,
        },
{
    if line == 0 || line as usize > table.len() {
        return None;
    }
    let segs = &table[(line - 1) as usize];
    let ghost sv = line_view(segs@);
    assert(sv == table_view(table@)[line - 1]);
    let mut best: usize = 0;
    let mut found = false;
    let mut k: usize = 0;
    while k < segs.len()
        invariant
            k <= segs.len(),
            sv == line_view(segs@),
            best_segment(sv, column as int, k as int) == if found {
                best as int
            } else {
                -1
            },
            found ==> best < k,
        decreases segs.len() - k,
    {
        let g = segs[k].generated_column;
        if g <= column && (!found || g > segs[best].generated_column) {
            best = k;
            found = true;
        }
        k = k + 1;
    }
    if !found {
        return None;
    }
    let seg = &segs[best];
    proof {
        assert(sv[best as int] == seg@);
        assert(table_view(table@)[line - 1][best as int] == seg@);
    }
    match &seg.source {
        None => None,
        Some(src) => Some(
            OriginalPosition {
                source: src.clone(),
                line: seg.original_line + 1,
                column: seg.original_column,
                name: clone_name(&seg.name),
            },
        ),
    }
}

/// Where a generated span lands: both ends resolve, to the same source.
pub open spec fn mapping_of(table: Seq<Seq<SegmentView>>, loc: Location) -> Option<(Seq<char>, Location)> {
    match (
        resolve(table, loc.start.line as int, loc.start.column as int),
        resolve(table, loc.end.line as int, loc.end.column as int),
    ) {
        (Some((s1, l1, c1, _)), Some((s2, l2, c2, _))) => if s1 == s2 {
            Some(
                (
                    s1,
                    Location {
                        start: Position { line: l1 as u32, column: c1 as u32 },
                        end: Position { line: l2 as u32, column: c2 as u32 },
                    },
                ),
            )
        } else {
            None
        },
        _ => None,
    }
}

fn clone_name(n: &Option<String>) -> (r: Option<String>)
    ensures
        option_string_view(r) == option_string_view(*n),
{
    match n {
        Some(x) => Some(x.clone()),
        None => None,
    }
}

/// Maps a generated span to an original one; see `mapping_of`.
pub fn get_mapping(
    table: &Vec<Vec<MappingSegment>>,
    generated_location: &Location,
    orig_file: &str,
) -> (r: Option<Mapping>)
    requires
        table_lines_bounded(table_view(table@)),
    ensures
        match (r, mapping_of(table_view(table@), *generated_location)) {
            (Some(m), Some((src, loc))) => m.source@ == src && m.loc == loc,
            (None, None) => true,
            _ => false,
        },
{
    let start = get_original_position_in(
        table,
        generated_location.start.line,
        generated_location.start.column,
    )?;
    let end = get_original_position_in(
        table,
        generated_location.end.line,
        generated_location.end.column,
    )?;
    if start.source != end.source {
        return None;
    }
    Some(
        Mapping {
            source: relative_to(start.source.as_str(), orig_file),
            loc: Location {
                start: Position { line: start.line, column: start.column },
                end: Position { line: end.line, column: end.column },
            },
        },
    )
}

/// A source path as reported for the generated file `_orig_file`: unchanged.
fn relative_to(source: &str, _orig_file: &str) -> (r: String)
    ensures
        r@ == source@,
{
    source.to_owned()
}

proof fn lemma_split_keeps(s: Seq<char>, sep: char, p: int)
    requires
        0 <= p < s.len(),
        s[p] != sep,
    ensures
        exists|i: int, q: int|
            0 <= i < split_on(s, sep).len() && 0 <= q < split_on(s, sep)[i].len() && split_on(s, sep)[i][q]
                == s[p],
    decreases s.len(),
{
    lemma_split_nonempty(s.drop_last(), sep);
    let init = split_on(s.drop_last(), sep);
    let sp = split_on(s, sep);
    if p == s.len() - 1 {
        let last = init.len() - 1;
        assert(sp[last] == init.last().push(s.last()));
        assert(sp[last][init.last().len() as int] == s[p]);
    } else {
        lemma_split_keeps(s.drop_last(), sep, p);
        let (i, q) = choose|i: int, q: int|
            0 <= i < init.len() && 0 <= q < init[i].len() && init[i][q] == s.drop_last()[p];
        if s.last() == sep {
            assert(sp[i] == init[i]);
        } else if i == init.len() - 1 {
            assert(sp[i] == init.last().push(s.last()));
            assert(sp[i][q] == init[i][q]);
        } else {
            assert(sp[i] == init[i]);
        }
    }
}

proof fn lemma_line_fails(
    segs: Seq<Seq<char>>,
    line: int,
    t: RunningTotals,
    sources: Seq<Seq<char>>,
    names: Seq<Seq<char>>,
    i: int,
    q: int,
)
    requires
        0 <= i < segs.len(),
        0 <= q < segs[i].len(),
        base64_digit(segs[i][q]) is None,
    ensures
        decode_line(segs, line, t, sources, names) is Err,
    decreases segs.len(),
{
    if i < segs.len() - 1 {
        lemma_line_fails(segs.drop_last(), line, t, sources, names, i, q);
    } else {
        lemma_invalid_char_fails_segment(segs.last(), 0, q);
    }
}

proof fn lemma_table_fails(
    lines: Seq<Seq<char>>,
    sources: Seq<Seq<char>>,
    names: Seq<Seq<char>>,
    i: int,
    q: int,
)
    requires
        0 <= i < lines.len(),
        0 <= q < lines[i].len(),
        base64_digit(lines[i][q]) is None,
        lines[i][q] != ',',
    ensures
        decode_table(lines, sources, names) is Err,
    decreases lines.len(),
{
    if i < lines.len() - 1 {
        lemma_table_fails(lines.drop_last(), sources, names, i, q);
    } else {
        let pieces = split_on(lines.last(), ',');
        lemma_split_keeps(lines.last(), ',', q);
        let (a, b) = choose|a: int, b: int|
            0 <= a < pieces.len() && 0 <= b < pieces[a].len() && pieces[a][b] == lines.last()[q];
        if let Ok((tab, t)) = decode_table(lines.drop_last(), sources, names) {
            lemma_line_fails(pieces, lines.len() - 1, t, sources, names, a, b);
        }
    }
}

/// A mapping string holding a character that is neither a base64 digit nor a
/// separator (`;` or `,`) fails to decode as a whole.
pub proof fn lemma_stray_character_fails(sm: SourceMap, p: int)
    requires
        0 <= p < sm.mappings@.len(),
        base64_digit(sm.mappings@[p]) is None,
        sm.mappings@[p] != ';',
        sm.mappings@[p] != ',',
    ensures
        mapping_table(sm) is Err,
{
    let lines = split_on(sm.mappings@, ';');
    lemma_split_keeps(sm.mappings@, ';', p);
    let (i, q) = choose|i: int, q: int|
        0 <= i < lines.len() && 0 <= q < lines[i].len() && lines[i][q] == sm.mappings@[p];
    lemma_table_fails(lines, strings_view(sm.sources@), strings_view(sm.names@), i, q);
}

} // verus!
