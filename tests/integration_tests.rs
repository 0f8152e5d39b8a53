use istanbul_sourcemap::sourcemap::{get_mapping, MappingSegment, SourceMapDecoder};
use istanbul_sourcemap::aggregator::MappedCoverage;
use istanbul_sourcemap::transformer::{get_unique_key, SourceMapStore};
use istanbul_sourcemap::vlq::{decode_vlq, DecodeError};
use istanbul_sourcemap::{
    transform_coverage, BranchMeta, CoverageMap, FileCoverage, FunctionMeta, Location, Position,
    SourceMap,
};

fn loc(l1: u32, c1: u32, l2: u32, c2: u32) -> Location {
    Location {
        start: Position { line: l1, column: c1 },
        end: Position { line: l2, column: c2 },
    }
}

fn hits(v: &[(String, u32)], id: &str) -> Option<u32> {
    v.iter().find(|e| e.0 == id).map(|e| e.1)
}

fn source_map(sources: &[&str], names: &[&str], mappings: &str) -> SourceMap {
    SourceMap {
        version: 3,
        sources: sources.iter().map(|s| s.to_string()).collect(),
        names: names.iter().map(|s| s.to_string()).collect(),
        mappings: mappings.to_string(),
        file: None,
        source_root: None,
        sources_content: None,
    }
}

fn empty_file(path: &str) -> FileCoverage {
    FileCoverage {
        path: path.to_string(),
        statement_map: vec![],
        fn_map: vec![],
        branch_map: vec![],
        s: vec![],
        f: vec![],
        b: vec![],
        input_source_map: None,
    }
}

fn chars(s: &str) -> Vec<char> {
    s.chars().collect()
}

#[test]
fn test_transform_coverage_with_source_map() {
    let mut fc = empty_file("dist/app.js");
    fc.statement_map = vec![("0".to_string(), loc(1, 0, 1, 25)), ("1".to_string(), loc(2, 0, 2, 20))];
    fc.fn_map = vec![(
        "0".to_string(),
        FunctionMeta { name: "testFunction".to_string(), decl: loc(1, 9, 1, 21), loc: loc(1, 0, 2, 1) },
    )];
    fc.s = vec![("0".to_string(), 1), ("1".to_string(), 0)];
    fc.f = vec![("0".to_string(), 1)];
    let mut sm = source_map(&["src/app.ts"], &["testFunction"], "AAAA,SAASA");
    sm.file = Some("app.js".to_string());
    fc.input_source_map = Some(sm);
    let coverage_map: CoverageMap = vec![("dist/app.js".to_string(), fc)];
    let store = SourceMapStore::new();
    let transformed_map = store.transform_coverage(coverage_map).unwrap();

    assert!(!transformed_map.is_empty());
    let has_original_source = transformed_map.iter().any(|(path, _)| path.contains("src/app.ts"));
    println!("Has original source mapping: {}", has_original_source);
}

#[test]
fn test_transform_coverage_without_source_map() {
    let mut fc = empty_file("test.js");
    fc.statement_map = vec![("0".to_string(), loc(1, 0, 1, 10))];
    fc.s = vec![("0".to_string(), 1)];
    let coverage_map: CoverageMap = vec![("test.js".to_string(), fc)];
    let store = SourceMapStore::new();
    let transformed_map = store.transform_coverage(coverage_map.clone()).unwrap();

    assert_eq!(transformed_map.len(), coverage_map.len());
    assert!(transformed_map.iter().any(|(k, _)| k == "test.js"));
}

#[test]
fn test_mapped_coverage_add_statement() {
    let mut mc = MappedCoverage::new("test.js".to_string());
    let index = mc.add_statement(loc(1, 0, 1, 10), 5);
    assert_eq!(index, 0);
    assert_eq!(hits(&mc.file_coverage.s, "0"), Some(5));

    let index2 = mc.add_statement(loc(1, 0, 1, 10), 3);
    assert_eq!(index2, 0);
    assert_eq!(hits(&mc.file_coverage.s, "0"), Some(8));
}

#[test]
fn test_mapped_coverage_add_function() {
    let mut mc = MappedCoverage::new("test.js".to_string());
    let index = mc.add_function("testFn".to_string(), loc(1, 9, 1, 19), loc(1, 0, 3, 1), 3);
    assert_eq!(index, 0);
    assert_eq!(hits(&mc.file_coverage.f, "0"), Some(3));

    let fn_meta = &mc.file_coverage.fn_map.iter().find(|e| e.0 == "0").unwrap().1;
    assert_eq!(fn_meta.name, "testFn");
}

#[test]
fn test_mapped_coverage_add_branch() {
    let mut mc = MappedCoverage::new("test.js".to_string());
    let branch_locs = vec![loc(2, 0, 2, 10), loc(2, 10, 2, 20)];
    let index = mc.add_branch("if".to_string(), loc(2, 0, 2, 20), branch_locs, vec![1, 0]);
    assert_eq!(index, 0);

    let h = &mc.file_coverage.b.iter().find(|e| e.0 == "0").unwrap().1;
    assert_eq!(h, &vec![1, 0]);
}

#[test]
fn test_location_string_formatting() {
    let l = loc(1, 5, 2, 10);
    let mut mc = MappedCoverage::new("test.js".to_string());
    let index1 = mc.add_statement(l, 1);
    let index2 = mc.add_statement(l, 1);
    assert_eq!(index1, index2);
}

#[test]
fn test_unique_key_generation() {
    let mut mc1 = MappedCoverage::new("src/app.js".to_string());
    let mut mc2 = MappedCoverage::new("src\\app.js".to_string());
    mc1.add_statement(loc(1, 0, 1, 10), 1);
    mc2.add_statement(loc(1, 0, 1, 10), 1);
    assert_eq!(mc1.file_coverage.path, "src/app.js");
    assert_eq!(mc2.file_coverage.path, "src\\app.js");
}

#[test]
fn vlq_single_digits() {
    assert_eq!(decode_vlq(&chars("A"), 0), Ok((0, 1)));
    assert_eq!(decode_vlq(&chars("C"), 0), Ok((1, 1)));
    assert_eq!(decode_vlq(&chars("D"), 0), Ok((-1, 1)));
}

#[test]
fn vlq_multi_digit_values() {
    // 16 is 32 unsigned, -16 is 33, 1000 is 2000 = 16 + 32 * 30 + 1024
    assert_eq!(decode_vlq(&chars("gB"), 0), Ok((16, 2)));
    assert_eq!(decode_vlq(&chars("hB"), 0), Ok((-16, 2)));
    assert_eq!(decode_vlq(&chars("w+B"), 0), Ok((1000, 3)));
    assert_eq!(decode_vlq(&chars("AC"), 1), Ok((1, 2)));
}

#[test]
fn vlq_errors() {
    assert_eq!(decode_vlq(&chars("!"), 0), Err(DecodeError::InvalidCharacter('!')));
    assert_eq!(decode_vlq(&chars("g"), 0), Err(DecodeError::Truncated));
    assert_eq!(decode_vlq(&chars(""), 0), Err(DecodeError::Truncated));
    assert_eq!(decode_vlq(&chars("gggggggB"), 0), Err(DecodeError::OutOfRange));
    assert_eq!(decode_vlq(&chars("//////H"), 0), Err(DecodeError::OutOfRange));
}

#[test]
fn vlq_value_bound_not_digit_count() {
    assert_eq!(decode_vlq(&chars("ggggggggA"), 0), Ok((0, 9)));
    assert_eq!(decode_vlq(&chars("igggggggggggA"), 0), Ok((1, 13)));
    assert_eq!(decode_vlq(&chars("//////D"), 0), Ok((-2147483647, 7)));
}

#[test]
fn malformed_character_fails_table() {
    let d = SourceMapDecoder::new(source_map(&["a.ts"], &[], "AAAA;AA!A"));
    assert_eq!(d.parse_mappings().err(), Some(DecodeError::InvalidCharacter('!')));
    let d = SourceMapDecoder::new(source_map(&["a.ts"], &[], "AAAA,g"));
    assert_eq!(d.parse_mappings().err(), Some(DecodeError::Truncated));
    let d = SourceMapDecoder::new(source_map(&["a.ts"], &[], "AAAD"));
    assert_eq!(d.parse_mappings().err(), Some(DecodeError::OutOfRange));
}

#[test]
fn parse_mappings_accumulates_deltas() {
    let d = SourceMapDecoder::new(source_map(&["a.ts", "b.ts"], &["x"], "AAAA,SACA;;ECCCA,G,KDDD"));
    let t = d.parse_mappings().unwrap();
    assert_eq!(t.len(), 3);
    assert_eq!(t[0].len(), 2);
    assert_eq!(t[1].len(), 0);
    assert_eq!(t[2].len(), 3);
    let s = &t[0][1];
    assert_eq!((s.generated_line, s.generated_column), (0, 9));
    assert_eq!(s.source.as_deref(), Some("a.ts"));
    assert_eq!((s.original_line, s.original_column), (1, 0));
    let s = &t[2][0];
    assert_eq!((s.generated_line, s.generated_column), (2, 2));
    assert_eq!(s.source.as_deref(), Some("b.ts"));
    assert_eq!((s.original_line, s.original_column), (2, 1));
    assert_eq!(s.name.as_deref(), Some("x"));
    let s = &t[2][1];
    assert_eq!(s.generated_column, 5);
    assert_eq!(s.source, None);
    let s = &t[2][2];
    assert_eq!(s.generated_column, 10);
    assert_eq!(s.source.as_deref(), Some("a.ts"));
    assert_eq!((s.original_line, s.original_column), (1, 0));
    assert_eq!(s.name, None);
}

#[test]
fn out_of_range_source_index_is_tolerated() {
    let d = SourceMapDecoder::new(source_map(&["a.ts"], &[], "AEAA,AFAA"));
    let t = d.parse_mappings().unwrap();
    assert_eq!(t[0][0].source, None);
    assert_eq!(t[0][1].source.as_deref(), Some("a.ts"));
}

#[test]
fn resolver_picks_greatest_column_not_above() {
    let d = SourceMapDecoder::new(source_map(&["a.ts"], &[], "AAAA,KACE"));
    let t: Vec<Vec<MappingSegment>> = d.parse_mappings().unwrap();
    let p = d.get_original_position(&t, 1, 7).unwrap();
    assert_eq!((p.source.as_str(), p.line, p.column), ("a.ts", 2, 2));
    let p = d.get_original_position(&t, 1, 4).unwrap();
    assert_eq!((p.line, p.column), (1, 0));
    assert!(d.get_original_position(&t, 2, 0).is_none());
    assert!(d.get_original_position(&t, 0, 0).is_none());
    let m = get_mapping(&t, &loc(1, 0, 1, 6), "gen.js").unwrap();
    assert_eq!(m.source, "a.ts");
    assert_eq!(m.loc, loc(1, 0, 2, 2));
}

#[test]
fn resolver_unmapped_column_gives_none() {
    let d = SourceMapDecoder::new(source_map(&["a.ts"], &[], "KAAA"));
    let t = d.parse_mappings().unwrap();
    assert!(d.get_original_position(&t, 1, 4).is_none());
    assert!(d.get_original_position(&t, 1, 5).is_some());
}

#[test]
fn statement_dedup_sums_hits() {
    let mut mc = MappedCoverage::new("a.ts".to_string());
    let i1 = mc.add_statement(loc(3, 1, 3, 9), 2);
    let other = mc.add_statement(loc(4, 0, 4, 1), 7);
    let i2 = mc.add_statement(loc(3, 1, 3, 9), 4);
    assert_eq!(i1, i2);
    assert_eq!(other, 1);
    assert_eq!(mc.file_coverage.statement_map.len(), 2);
    assert_eq!(hits(&mc.file_coverage.s, "0"), Some(6));
    assert_eq!(hits(&mc.file_coverage.s, "1"), Some(7));
}

#[test]
fn statement_hits_saturate() {
    let mut mc = MappedCoverage::new("a.ts".to_string());
    mc.add_statement(loc(1, 0, 1, 1), u32::MAX);
    mc.add_statement(loc(1, 0, 1, 1), 5);
    assert_eq!(hits(&mc.file_coverage.s, "0"), Some(u32::MAX));
}

#[test]
fn branch_positional_summation() {
    let mut mc = MappedCoverage::new("a.ts".to_string());
    let arms = vec![loc(2, 0, 2, 10), loc(2, 10, 2, 20)];
    let i1 = mc.add_branch("if".to_string(), loc(2, 0, 2, 20), arms.clone(), vec![1, 0]);
    let i2 = mc.add_branch("if".to_string(), loc(2, 0, 2, 20), arms, vec![0, 1]);
    assert_eq!(i1, i2);
    assert_eq!(mc.file_coverage.b.len(), 1);
    assert_eq!(mc.file_coverage.b[0].1, vec![1, 1]);
}

#[test]
fn branch_merge_ignores_extra_hits() {
    let mut mc = MappedCoverage::new("a.ts".to_string());
    let arms = vec![loc(2, 0, 2, 10), loc(2, 10, 2, 20)];
    mc.add_branch("if".to_string(), loc(2, 0, 2, 20), arms.clone(), vec![1, 2]);
    mc.add_branch("if".to_string(), loc(2, 0, 2, 20), arms, vec![3, 4, 5]);
    assert_eq!(mc.file_coverage.b[0].1, vec![4, 6]);
}

#[test]
fn unnamed_function_gets_placeholder() {
    let mut mc = MappedCoverage::new("a.ts".to_string());
    mc.add_function("f".to_string(), loc(1, 0, 1, 1), loc(1, 0, 2, 0), 1);
    let id = mc.add_function(String::new(), loc(5, 0, 5, 1), loc(5, 0, 6, 0), 1);
    assert_eq!(id, 1);
    assert_eq!(mc.file_coverage.fn_map[1].0, "1");
    assert_eq!(mc.file_coverage.fn_map[1].1.name, "(unknown_1)");
    let again = mc.add_function("g".to_string(), loc(5, 0, 5, 1), loc(5, 0, 6, 0), 2);
    assert_eq!(again, 1);
    assert_eq!(hits(&mc.file_coverage.f, "1"), Some(3));
}

#[test]
fn ids_are_decimal() {
    let mut mc = MappedCoverage::new("a.ts".to_string());
    for i in 0..12u32 {
        mc.add_statement(loc(i + 1, 0, i + 1, 1), i);
    }
    assert_eq!(mc.file_coverage.statement_map[11].0, "11");
    assert_eq!(hits(&mc.file_coverage.s, "10"), Some(10));
}

#[test]
fn unique_key_replaces_both_separators() {
    assert_eq!(get_unique_key("src/app.js"), "src_app.js");
    assert_eq!(get_unique_key("src\\app.js"), "src_app.js");
    assert_eq!(get_unique_key("plain"), "plain");
}

#[test]
fn identity_without_source_maps() {
    let mut a = empty_file("a.js");
    a.statement_map = vec![("7".to_string(), loc(1, 0, 1, 3))];
    a.s = vec![("7".to_string(), 4)];
    let b = empty_file("b\\c.js");
    let input: CoverageMap = vec![("a.js".to_string(), a), ("b\\c.js".to_string(), b)];
    let out = transform_coverage(input.clone()).unwrap();
    assert_eq!(out.len(), 2);
    assert_eq!(out[0].0, "a.js");
    assert_eq!(out[0].1.s, input[0].1.s);
    assert_eq!(out[1].0, "b\\c.js");
}

fn generated_file(path: &str, hits_n: u32) -> FileCoverage {
    let mut fc = empty_file(path);
    fc.statement_map = vec![("0".to_string(), loc(1, 0, 1, 5))];
    fc.s = vec![("0".to_string(), hits_n)];
    fc.input_source_map = Some(source_map(&["src/shared.ts"], &[], "AAAA"));
    fc
}

#[test]
fn cross_file_convergence() {
    let input: CoverageMap = vec![
        ("dist/a.js".to_string(), generated_file("dist/a.js", 2)),
        ("dist/b.js".to_string(), generated_file("dist/b.js", 3)),
    ];
    let out = transform_coverage(input).unwrap();
    assert_eq!(out.len(), 1);
    assert_eq!(out[0].0, "src/shared.ts");
    assert_eq!(out[0].1.statement_map.len(), 1);
    assert_eq!(out[0].1.statement_map[0].1, loc(1, 0, 1, 0));
    assert_eq!(hits(&out[0].1.s, "0"), Some(5));
}

#[test]
fn function_with_mixed_sources_is_dropped() {
    let mut fc = empty_file("dist/a.js");
    // line 1 maps to a.ts, line 2 to b.ts
    fc.input_source_map = Some(source_map(&["a.ts", "b.ts"], &[], "AAAA;ACAA"));
    fc.fn_map = vec![
        ("0".to_string(), FunctionMeta { name: "f".to_string(), decl: loc(1, 0, 1, 3), loc: loc(2, 0, 2, 9) }),
        ("1".to_string(), FunctionMeta { name: "g".to_string(), decl: loc(1, 0, 1, 2), loc: loc(1, 0, 1, 9) }),
    ];
    fc.f = vec![("0".to_string(), 1), ("1".to_string(), 4)];
    let out = transform_coverage(vec![("dist/a.js".to_string(), fc)]).unwrap();
    assert_eq!(out.len(), 1);
    assert_eq!(out[0].0, "a.ts");
    assert_eq!(out[0].1.fn_map.len(), 1);
    assert_eq!(out[0].1.fn_map[0].1.name, "g");
    assert_eq!(hits(&out[0].1.f, "0"), Some(4));
}

#[test]
fn branch_with_mixed_sources_is_dropped() {
    let mut fc = empty_file("dist/a.js");
    fc.input_source_map = Some(source_map(&["a.ts", "b.ts"], &[], "AAAA;ACAA"));
    fc.statement_map = vec![("0".to_string(), loc(1, 0, 1, 1))];
    fc.s = vec![("0".to_string(), 1)];
    fc.branch_map = vec![(
        "0".to_string(),
        BranchMeta {
            branch_type: "switch".to_string(),
            loc: loc(1, 0, 2, 5),
            locations: vec![loc(1, 0, 1, 2), loc(1, 2, 1, 4), loc(2, 0, 2, 3)],
        },
    )];
    fc.b = vec![("0".to_string(), vec![1, 2, 3])];
    let out = transform_coverage(vec![("dist/a.js".to_string(), fc)]).unwrap();
    assert_eq!(out.len(), 1);
    assert_eq!(out[0].1.branch_map.len(), 0);
    assert_eq!(out[0].1.b.len(), 0);
}

#[test]
fn branch_keeps_hits_of_mapped_arms() {
    let mut fc = empty_file("dist/a.js");
    // line 1 maps from column 4 on; line 2 maps from column 0
    fc.input_source_map = Some(source_map(&["a.ts"], &[], "IAAA;AACA"));
    fc.branch_map = vec![(
        "0".to_string(),
        BranchMeta {
            branch_type: "if".to_string(),
            loc: loc(0, 0, 0, 0),
            locations: vec![loc(1, 0, 1, 2), loc(1, 4, 1, 6), loc(2, 0, 2, 3)],
        },
    )];
    fc.b = vec![("0".to_string(), vec![7, 8, 9])];
    let out = transform_coverage(vec![("dist/a.js".to_string(), fc)]).unwrap();
    assert_eq!(out.len(), 1);
    let br = &out[0].1.branch_map[0].1;
    assert_eq!(br.locations, vec![loc(1, 0, 1, 0), loc(2, 0, 2, 0)]);
    assert_eq!(br.loc, loc(1, 0, 1, 0));
    assert_eq!(out[0].1.b[0].1, vec![8, 9]);
}

#[test]
fn unmappable_file_passes_through() {
    let mut fc = empty_file("dist/a.js");
    fc.input_source_map = Some(source_map(&["a.ts"], &[], "A"));
    fc.statement_map = vec![("0".to_string(), loc(1, 0, 1, 1))];
    fc.s = vec![("0".to_string(), 1)];
    let other = empty_file("dist\\a.js");
    let out = transform_coverage(vec![
        ("dist/a.js".to_string(), fc),
        ("dist\\a.js".to_string(), other),
    ])
    .unwrap();
    assert_eq!(out.len(), 1);
    assert_eq!(out[0].0, "dist/a.js");
    assert_eq!(out[0].1.statement_map.len(), 1);
}

#[test]
fn decode_failure_fails_transform() {
    let mut fc = empty_file("dist/a.js");
    fc.input_source_map = Some(source_map(&["a.ts"], &[], "AA!A"));
    let err = transform_coverage(vec![("dist/a.js".to_string(), fc)]).unwrap_err();
    assert_eq!(err.path, "dist/a.js");
    assert_eq!(err.error, DecodeError::InvalidCharacter('!'));
}
