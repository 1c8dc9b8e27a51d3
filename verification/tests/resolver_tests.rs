use wasm_source_map::resolve::{
    assemble_compact, assemble_grouped, resolve_unit, resolve_units, LineRow, RowColumn, RowFile,
    UnitData,
};
use wasm_source_map::wasm::{scan_module, ResolverError};

fn row(address: u64, line: u64, column: u64, file: &str) -> LineRow {
    LineRow {
        address,
        line: Some(line),
        column: RowColumn::Column(column),
        end_sequence: false,
        file: Some(RowFile {
            directory: Some(String::from("/src")),
            path_name: String::from(file),
        }),
    }
}

fn end_row(address: u64) -> LineRow {
    LineRow {
        address,
        line: None,
        column: RowColumn::LeftEdge,
        end_sequence: true,
        file: None,
    }
}

fn unit(language: u16, rows: Vec<LineRow>) -> UnitData {
    UnitData {
        name: String::from("main.rs"),
        directory: String::from("/src"),
        language,
        rows,
    }
}

#[test]
fn rows_are_zero_based_and_address_biased() {
    let u = unit(0, vec![row(4, 7, 5, "a.c"), end_row(8)]);
    let (su, _) = resolve_unit(100, &u).unwrap();
    assert_eq!(su.name, "main.rs");
    assert_eq!(su.directory, "/src");
    assert_eq!(su.files.len(), 1);
    assert_eq!(su.files[0].file, "/src/a.c");
    assert_eq!(su.files[0].language, 0);
    assert_eq!(su.files[0].lines.len(), 1);
    let e = su.files[0].lines[0];
    assert_eq!(e.address, 104);
    assert_eq!(e.pos.line, 6);
    assert_eq!(e.pos.column, 4);
}

#[test]
fn rust_units_keep_their_reported_column() {
    let u = unit(0x1c, vec![row(4, 7, 5, "a.rs"), end_row(8)]);
    let (su, _) = resolve_unit(100, &u).unwrap();
    let e = su.files[0].lines[0];
    assert_eq!(e.pos.line, 6);
    assert_eq!(e.pos.column, 5);
}

#[test]
fn left_edge_column_becomes_zero() {
    let mut r = row(4, 3, 1, "a.c");
    r.column = RowColumn::LeftEdge;
    let u = unit(0, vec![r]);
    let (su, _) = resolve_unit(0, &u).unwrap();
    assert_eq!(su.files[0].lines[0].pos.column, 0);
}

#[test]
fn zero_line_is_a_decode_failure() {
    let u = unit(0, vec![row(4, 0, 5, "a.c")]);
    assert_eq!(
        resolve_unit(0, &u).unwrap_err(),
        ResolverError::DebugInfoDecodeFailure
    );
}

#[test]
fn zero_column_is_a_decode_failure() {
    let u = unit(0, vec![row(4, 3, 0, "a.c")]);
    assert_eq!(
        resolve_unit(0, &u).unwrap_err(),
        ResolverError::DebugInfoDecodeFailure
    );
}

#[test]
fn rows_without_line_or_file_are_skipped() {
    let mut no_line = row(4, 1, 1, "a.c");
    no_line.line = None;
    let mut no_file = row(8, 1, 1, "a.c");
    no_file.file = None;
    let u = unit(0, vec![no_line, no_file, row(12, 2, 2, "a.c")]);
    let (su, _) = resolve_unit(0, &u).unwrap();
    assert_eq!(su.files.len(), 1);
    assert_eq!(su.files[0].lines.len(), 1);
    assert_eq!(su.files[0].lines[0].address, 12);
}

#[test]
fn tombstone_sequence_contributes_nothing_until_end_sequence() {
    let u = unit(
        0,
        vec![
            row(0, 1, 1, "dead.c"),
            row(4, 2, 2, "dead.c"),
            end_row(8),
            row(16, 3, 3, "live.c"),
            end_row(20),
        ],
    );
    let (su, _) = resolve_unit(0, &u).unwrap();
    assert_eq!(su.files.len(), 1);
    assert_eq!(su.files[0].file, "/src/live.c");
    assert_eq!(su.files[0].lines.len(), 1);
    assert_eq!(su.files[0].lines[0].address, 16);
}

#[test]
fn absolute_path_name_overrides_directory() {
    let mut r = row(4, 1, 1, "x");
    r.file = Some(RowFile {
        directory: Some(String::from("/a/b")),
        path_name: String::from("/c/d"),
    });
    let u = unit(0, vec![r]);
    let (su, _) = resolve_unit(0, &u).unwrap();
    assert_eq!(su.files[0].file, "/c/d");
}

#[test]
fn missing_directory_seeds_with_a_dot() {
    let mut r = row(4, 1, 1, "x");
    r.file = Some(RowFile {
        directory: None,
        path_name: String::from("lib.c"),
    });
    let u = unit(0, vec![r]);
    let (su, _) = resolve_unit(0, &u).unwrap();
    assert_eq!(su.files[0].file, "./lib.c");
}

#[test]
fn per_file_lines_are_address_sorted_and_deduplicated() {
    let u = unit(
        0,
        vec![
            row(12, 5, 1, "a.c"),
            row(4, 1, 1, "a.c"),
            row(12, 9, 9, "a.c"),
            row(8, 3, 1, "a.c"),
        ],
    );
    let (su, _) = resolve_unit(0, &u).unwrap();
    let lines = &su.files[0].lines;
    assert_eq!(lines.len(), 3);
    assert_eq!(lines[0].address, 4);
    assert_eq!(lines[1].address, 8);
    assert_eq!(lines[2].address, 12);
    // the first-encountered row for address 12 won
    assert_eq!(lines[2].pos.line, 4);
}

#[test]
fn per_file_positions_are_unique() {
    let u = unit(0, vec![row(4, 7, 7, "a.c"), row(8, 7, 7, "a.c")]);
    let (su, _) = resolve_unit(0, &u).unwrap();
    let lines = &su.files[0].lines;
    assert_eq!(lines.len(), 1);
    assert_eq!(lines[0].address, 4);
}

#[test]
fn files_keep_first_seen_order() {
    let u = unit(
        0,
        vec![row(4, 1, 1, "b.c"), row(8, 1, 1, "a.c"), row(12, 2, 1, "b.c")],
    );
    let (su, _) = resolve_unit(0, &u).unwrap();
    assert_eq!(su.files.len(), 2);
    assert_eq!(su.files[0].file, "/src/b.c");
    assert_eq!(su.files[1].file, "/src/a.c");
    assert_eq!(su.files[0].lines.len(), 2);
}

#[test]
fn units_without_resolved_files_are_dropped() {
    let empty = unit(0, vec![end_row(4)]);
    let live = unit(0, vec![row(4, 1, 1, "a.c")]);
    let out = resolve_units(0, &vec![empty, live]).unwrap();
    assert_eq!(out.units.len(), 1);
    assert_eq!(out.units[0].files[0].file, "/src/a.c");
    let doc = assemble_grouped(out.units);
    assert!(doc.error.is_none());
    assert_eq!(doc.units.unwrap().len(), 1);
}

#[test]
fn end_to_end_single_source_file() {
    // a module holding one function body in its code section and a debug
    // custom section; the unit's rows mimic what a DWARF line program of a
    // single, unstripped source file reports
    let mut m = vec![0u8, 0x61, 0x73, 0x6d, 1, 0, 0, 0];
    m.extend_from_slice(&[0, 14, 11]);
    m.extend_from_slice(b".debug_line");
    m.extend_from_slice(&[9, 9]);
    m.extend_from_slice(&[10, 4, 1, 2, 3, 4]);
    let scan = scan_module(&m).unwrap();
    assert_eq!(scan.debug_sections.len(), 1);
    let offset = scan.code_section_offset;
    let u = UnitData {
        name: String::from("count_vowels.rs"),
        directory: String::from("/proj"),
        language: 0x1c,
        rows: vec![
            row(2, 1, 5, "count_vowels.rs"),
            row(5, 2, 9, "count_vowels.rs"),
            row(9, 3, 9, "count_vowels.rs"),
            end_row(12),
        ],
    };
    let out = resolve_units(offset, &vec![u]).unwrap();
    assert_eq!(out.units.len(), 1);
    assert_eq!(out.units[0].files.len(), 1);
    let file = &out.units[0].files[0];
    assert_eq!(file.file, "/src/count_vowels.rs");
    let lines = &file.lines;
    assert!(lines.len() > 0);
    for w in lines.windows(2) {
        assert!(w[0].address < w[1].address);
    }
    // the first entry maps the first statement of the entry function
    assert_eq!(lines[0].address, offset + 2);
    assert_eq!(lines[0].pos.line, 0);
    assert_eq!(lines[0].pos.column, 5);
}

#[test]
fn global_table_deduplicates_across_units_first_wins() {
    let u1 = unit(0, vec![row(8, 1, 1, "a.c"), row(4, 2, 2, "a.c")]);
    let u2 = unit(0, vec![row(8, 9, 9, "b.c"), row(16, 3, 3, "b.c")]);
    let out = resolve_units(0, &vec![u1, u2]).unwrap();
    assert_eq!(out.locations.len(), 4);
    let compact = assemble_compact(&out.locations);
    assert_eq!(compact.files.len(), 2);
    assert_eq!(compact.files[0], "/src/a.c");
    assert_eq!(compact.files[1], "/src/b.c");
    // addresses 4, 8, 16; for address 8 the first-encountered row (unit 1,
    // line 0-based 0) won over unit 2's row
    assert_eq!(compact.locations.len(), 3);
    assert_eq!(compact.locations[0].address, 4);
    assert_eq!(compact.locations[1].address, 8);
    assert_eq!(compact.locations[1].file_index, 0);
    assert_eq!(compact.locations[1].line, 0);
    assert_eq!(compact.locations[2].address, 16);
    assert_eq!(compact.locations[2].file_index, 1);
}
