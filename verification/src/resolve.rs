//! Resolves per-compilation-unit line-number rows into normalized,
//! deduplicated, address-biased source locations grouped by canonical
//! source file.
//!
//! The DWARF byte-code interpreter is an external capability: a caller
//! decodes the debug sections and hands each unit's rows over as plain
//! values. This module walks those rows with a small state machine that
//! discards placeholder sequences starting at address 0, converts each
//! surviving row to a zero-based position (with a per-unit column
//! correction for one language's producer defect), biases its address by
//! the code section offset, resolves its canonical file path, and
//! accumulates per-file tables with sorting and uniqueness invariants.
//!
//! Each file's finished table is deduplicated by source position and then
//! ordered by strictly increasing address (deduplicated again there), so a
//! debugger can binary-search it by address; on every duplicate the
//! first-encountered entry wins. The compact output form additionally
//! deduplicates one global table by address across the whole module.

use crate::path::joined;
use crate::path::lemma_norm_slashes_identity;
use crate::path::norm_slashes;
use crate::path::Path;
use crate::wasm::ResolverError;
use vstd::prelude::*;

verus! {

/// The DWARF language code whose producer under-reports columns by one, so
/// the usual one-based-to-zero-based column correction is skipped for its
/// units.
pub const LANG_RUST: u16 = 0x1c;

/// Whether the unit's language gets the column correction added back.
pub open spec fn lang_quirk(language: u16) -> bool {
    language == LANG_RUST
}

/// A resolved, zero-based source position.
#[derive(Debug, Clone, Copy, PartialEq, Eq, Structural)]
pub struct Pos {
    pub line: u32,
    pub column: u32,
}

/// One resolved location: a module-absolute address and its position.
#[derive(Debug, Clone, Copy, PartialEq, Eq, Structural)]
pub struct LocationEntry {
    pub address: u64,
    pub pos: Pos,
}

/// A row's column report: a one-based number, or the left edge of the
/// line.
#[derive(Debug, Clone, Copy, PartialEq, Eq, Structural)]
pub enum RowColumn {
    LeftEdge,
    Column(u64),
}

/// The file a row attributes its instruction to, as resolved strings.
pub struct RowFile {
    pub directory: Option<String>,
    pub path_name: String,
}

/// One line-program row as reported by the decoding capability.
pub struct LineRow {
    pub address: u64,
    pub line: Option<u64>,
    pub column: RowColumn,
    pub end_sequence: bool,
    pub file: Option<RowFile>,
}

/// One compilation unit's line program and attributes.
pub struct UnitData {
    pub name: String,
    pub directory: String,
    pub language: u16,
    pub rows: Vec<LineRow>,
}

/// The mathematical image of a row's file attribution.
pub ghost struct GRowFile {
    pub directory: Option<Seq<char>>,
    pub path_name: Seq<char>,
}

/// The mathematical image of a row.
pub ghost struct GRow {
    pub address: u64,
    pub line: Option<u64>,
    pub column: RowColumn,
    pub end_sequence: bool,
    pub file: Option<GRowFile>,
}

/// The mathematical image of a unit.
pub ghost struct GUnit {
    pub name: Seq<char>,
    pub directory: Seq<char>,
    pub language: u16,
    pub rows: Seq<GRow>,
}

impl View for RowFile {
    type V = GRowFile;

    open spec fn view(&self) -> GRowFile {
        GRowFile {
            directory: match self.directory {
                Some(d) => Some(d@),
                None => None,
            },
            path_name: self.path_name@,
        }
    }
}

impl View for LineRow {
    type V = GRow;

    open spec fn view(&self) -> GRow {
        GRow {
            address: self.address,
            line: self.line,
            column: self.column,
            end_sequence: self.end_sequence,
            file: match self.file {
                Some(f) => Some(f@),
                None => None,
            },
        }
    }
}

impl View for UnitData {
    type V = GUnit;

    open spec fn view(&self) -> GUnit {
        GUnit {
            name: self.name@,
            directory: self.directory@,
            language: self.language,
            rows: self.rows@.map_values(|row: LineRow| row@),
        }
    }
}

/// The zero-based position of a row reporting one-based `line` and
/// `column`, or nothing when the report violates the decoder's contract
/// (a line or column of 0) or does not fit 32 bits.
pub open spec fn spec_pos(line: u64, column: RowColumn, quirk: bool) -> Option<Pos> {
    if line == 0 || line - 1 > u32::MAX {
        None
    } else {
        match column {
            RowColumn::LeftEdge => Some(Pos { line: (line - 1) as u32, column: 0 }),
            RowColumn::Column(c) => {
                if c == 0 {
                    None
                } else {
                    let cc = c - 1 + (if quirk {
                        1int
                    } else {
                        0int
                    });
                    if cc > u32::MAX {
                        None
                    } else {
                        Some(Pos { line: (line - 1) as u32, column: cc as u32 })
                    }
                }
            },
        }
    }
}

/// The canonical file key of a row: the normalized directory (or `.` when
/// the row names none) joined with the row's path name.
pub open spec fn spec_file_key(file: GRowFile) -> Seq<char> {
    let seed = match file.directory {
        Some(d) => norm_slashes(d),
        None => seq!['.'],
    };
    joined(seed, file.path_name)
}

/// What one processed row contributes.
pub ghost enum RowOutcome {
    /// The row lacks a file or a line and is skipped.
    Skip,
    /// The row's data violates the decoder's contract or overflows.
    Fatal,
    /// The row emits one located entry under a canonical file key.
    Emit { key: Seq<char>, entry: LocationEntry },
}

/// Processes one row: file and line must be present, the position must be
/// expressible, and the biased address must fit 64 bits.
pub open spec fn spec_row_outcome(offset: u64, quirk: bool, row: GRow) -> RowOutcome {
    match row.file {
        None => RowOutcome::Skip,
        Some(f) => match row.line {
            None => RowOutcome::Skip,
            Some(l) => match spec_pos(l, row.column, quirk) {
                None => RowOutcome::Fatal,
                Some(pos) => {
                    if offset + row.address > u64::MAX {
                        RowOutcome::Fatal
                    } else {
                        RowOutcome::Emit {
                            key: spec_file_key(f),
                            entry: LocationEntry { address: (offset + row.address) as u64, pos },
                        }
                    }
                },
            },
        },
    }
}

/// The per-unit walk's state: evaluating a new sequence, discarding a
/// placeholder sequence, or processing rows.
#[derive(Debug, Clone, Copy, PartialEq, Eq, Structural)]
pub enum FuncState {
    Start,
    Ignored,
    Normal,
}

/// One emitted location under its canonical file key.
pub ghost struct GEmit {
    pub key: Seq<char>,
    pub entry: LocationEntry,
}

/// The locations a unit's rows emit, in row order, or nothing on the first
/// fatal row. A sequence whose first row reports address 0 is a
/// placeholder for linker-stripped code: its rows are discarded up to and
/// including the next end-of-sequence row, after which the walk starts
/// afresh.
pub open spec fn spec_emits(offset: u64, quirk: bool, rows: Seq<GRow>, st: FuncState) -> Option<
    Seq<GEmit>,
>
    decreases rows.len(),
{
    if rows.len() == 0 {
        Some(Seq::<GEmit>::empty())
    } else {
        let row = rows[0];
        let st1 = if st is Start {
            if row.address == 0 {
                FuncState::Ignored
            } else {
                FuncState::Normal
            }
        } else {
            st
        };
        let st2 = if row.end_sequence {
            FuncState::Start
        } else {
            st1
        };
        if st1 is Ignored {
            spec_emits(offset, quirk, rows.drop_first(), st2)
        } else {
            match spec_row_outcome(offset, quirk, row) {
                RowOutcome::Fatal => None,
                RowOutcome::Skip => spec_emits(offset, quirk, rows.drop_first(), st2),
                RowOutcome::Emit { key, entry } => match spec_emits(
                    offset,
                    quirk,
                    rows.drop_first(),
                    st2,
                ) {
                    None => None,
                    Some(rest) => Some(seq![GEmit { key, entry }] + rest),
                },
            }
        }
    }
}

/// Two entries naming the same zero-based source position.
pub open spec fn same_pos(a: LocationEntry, b: LocationEntry) -> bool {
    a.pos.line == b.pos.line && a.pos.column == b.pos.column
}

/// Some entry of `s` shares `e`'s position.
pub open spec fn has_pos(s: Seq<LocationEntry>, e: LocationEntry) -> bool {
    exists|j: int| 0 <= j < s.len() && same_pos(#[trigger] s[j], e)
}

/// Keeps each entry whose position no earlier entry already claimed.
pub open spec fn dedup_pos(s: Seq<LocationEntry>) -> Seq<LocationEntry>
    decreases s.len(),
{
    if s.len() == 0 {
        Seq::<LocationEntry>::empty()
    } else {
        let prefix = dedup_pos(s.drop_last());
        if has_pos(s.drop_last(), s.last()) {
            prefix
        } else {
            prefix.push(s.last())
        }
    }
}

/// What survives the position dedup: entries of the input, pairwise
/// distinct in position, covering exactly the input's positions.
pub proof fn lemma_dedup_pos(s: Seq<LocationEntry>)
    ensures
        forall|i: int, j: int|
            0 <= i < j < dedup_pos(s).len() ==> !same_pos(
                #[trigger] dedup_pos(s)[i],
                #[trigger] dedup_pos(s)[j],
            ),
        forall|i: int| 0 <= i < dedup_pos(s).len() ==> s.contains(#[trigger] dedup_pos(s)[i]),
        forall|e: LocationEntry| #[trigger] has_pos(dedup_pos(s), e) == has_pos(s, e),
    decreases s.len(),
{
    if s.len() > 0 {
        lemma_dedup_pos(s.drop_last());
        let d0 = dedup_pos(s.drop_last());
        let d = dedup_pos(s);
        assert forall|i: int| 0 <= i < d.len() implies s.contains(#[trigger] d[i]) by {
            if i < d0.len() {
                let w = choose|w: int| 0 <= w < s.drop_last().len() && s.drop_last()[w] == d0[i];
                assert(s[w] == d[i]);
            } else {
                assert(d[i] == s.last());
                assert(s[s.len() - 1] == s.last());
            }
        }
        assert forall|e: LocationEntry| #[trigger]
            has_pos(d, e) == has_pos(s, e) by {
            if has_pos(d, e) {
                let wd = choose|wd: int| 0 <= wd < d.len() && same_pos(#[trigger] d[wd], e);
                if wd < d0.len() {
                    assert(same_pos(d0[wd], e));
                    assert(has_pos(d0, e));
                    assert(has_pos(s.drop_last(), e));
                    let w2 = choose|w2: int|
                        0 <= w2 < s.drop_last().len() && same_pos(
                            #[trigger] s.drop_last()[w2],
                            e,
                        );
                    assert(same_pos(s[w2], e));
                    assert(has_pos(s, e));
                } else {
                    assert(d[wd] == s.last());
                    assert(same_pos(s[s.len() - 1], e));
                    assert(has_pos(s, e));
                }
            }
            if has_pos(s, e) {
                let w = choose|w: int| 0 <= w < s.len() && same_pos(#[trigger] s[w], e);
                if w < s.len() - 1 {
                    assert(same_pos(s.drop_last()[w], e));
                    assert(has_pos(s.drop_last(), e));
                    assert(has_pos(d0, e));
                    let w3 = choose|w3: int| 0 <= w3 < d0.len() && same_pos(#[trigger] d0[w3], e);
                    assert(same_pos(d[w3], e));
                    assert(has_pos(d, e));
                } else {
                    if has_pos(s.drop_last(), s.last()) {
                        let w2 = choose|w2: int|
                            0 <= w2 < s.drop_last().len() && same_pos(
                                #[trigger] s.drop_last()[w2],
                                s.last(),
                            );
                        assert(same_pos(s.drop_last()[w2], e));
                        assert(has_pos(s.drop_last(), e));
                        assert(has_pos(d0, e));
                        let w3 = choose|w3: int|
                            0 <= w3 < d0.len() && same_pos(#[trigger] d0[w3], e);
                        assert(same_pos(d[w3], e));
                        assert(has_pos(d, e));
                    } else {
                        assert(d == d0.push(s.last()));
                        assert(same_pos(d[d.len() - 1], e));
                        assert(has_pos(d, e));
                    }
                }
            }
        }
    }
}

/// Addresses strictly increase along `s`.
pub open spec fn sorted_addrs(s: Seq<LocationEntry>) -> bool {
    forall|i: int, j: int|
        0 <= i < j < s.len() ==> (#[trigger] s[i]).address < (#[trigger] s[j]).address
}

/// Some entry of `s` holds address `a`.
pub open spec fn has_addr(s: Seq<LocationEntry>, a: u64) -> bool {
    exists|j: int| 0 <= j < s.len() && (#[trigger] s[j]).address == a
}

/// The first index of `s` holding address `a`, or -1 when none does.
pub open spec fn first_with_addr(s: Seq<LocationEntry>, a: u64) -> int
    decreases s.len(),
{
    if s.len() == 0 {
        -1
    } else if s[0].address == a {
        0
    } else if first_with_addr(s.drop_first(), a) < 0 {
        -1
    } else {
        1 + first_with_addr(s.drop_first(), a)
    }
}

/// `first_with_addr` names the first entry holding the address, when one
/// exists.
pub proof fn lemma_first_with_addr(s: Seq<LocationEntry>, a: u64)
    ensures
        first_with_addr(s, a) >= 0 ==> first_with_addr(s, a) < s.len() && s[first_with_addr(
            s,
            a,
        )].address == a && (forall|j: int|
            0 <= j < first_with_addr(s, a) ==> (#[trigger] s[j]).address != a),
        first_with_addr(s, a) < 0 ==> forall|j: int|
            0 <= j < s.len() ==> (#[trigger] s[j]).address != a,
    decreases s.len(),
{
    if s.len() > 0 && s[0].address != a {
        lemma_first_with_addr(s.drop_first(), a);
        assert(forall|j: int| 1 <= j < s.len() ==> (#[trigger] s[j]) == s.drop_first()[j - 1]);
    }
}

/// Inserts `e` into an address-sorted list unless its address is already
/// present, in which case the present entry stays.
pub open spec fn insert_addr(acc: Seq<LocationEntry>, e: LocationEntry) -> Seq<LocationEntry>
    decreases acc.len(),
{
    if acc.len() == 0 {
        seq![e]
    } else if e.address < acc[0].address {
        seq![e] + acc
    } else if e.address == acc[0].address {
        acc
    } else {
        seq![acc[0]] + insert_addr(acc.drop_first(), e)
    }
}

/// What one sorted insertion preserves and adds.
#[verifier::rlimit(50)]
pub proof fn lemma_insert_addr(acc: Seq<LocationEntry>, e: LocationEntry)
    requires
        sorted_addrs(acc),
    ensures
        sorted_addrs(insert_addr(acc, e)),
        forall|a: u64| #[trigger]
            has_addr(insert_addr(acc, e), a) == (has_addr(acc, a) || a == e.address),
        forall|x: LocationEntry| #[trigger]
            insert_addr(acc, e).contains(x) ==> acc.contains(x) || x == e,
        forall|x: LocationEntry| #[trigger] acc.contains(x) ==> insert_addr(acc, e).contains(x),
        has_addr(acc, e.address) ==> insert_addr(acc, e) == acc,
        !has_addr(acc, e.address) ==> insert_addr(acc, e).contains(e),
    decreases acc.len(),
{
    let r = insert_addr(acc, e);
    if acc.len() == 0 {
        assert(r[0] == e);
        assert(r.contains(e));
        assert forall|x: LocationEntry| #[trigger] r.contains(x) implies acc.contains(x) || x
            == e by {
            let w = choose|w: int| 0 <= w < r.len() && r[w] == x;
            assert(w == 0);
        }
    } else if e.address < acc[0].address {
        assert(r == seq![e] + acc);
        assert(r[0] == e);
        assert(r.contains(e));
        assert forall|x: LocationEntry| #[trigger] r.contains(x) implies acc.contains(x) || x
            == e by {
            let w = choose|w: int| 0 <= w < r.len() && r[w] == x;
            if w > 0 {
                assert(acc[w - 1] == x);
            }
        }
        assert forall|x: LocationEntry| #[trigger] acc.contains(x) implies r.contains(x) by {
            let w = choose|w: int| 0 <= w < acc.len() && acc[w] == x;
            assert(r[w + 1] == x);
        }
        assert forall|a: u64| #[trigger]
            has_addr(r, a) == (has_addr(acc, a) || a == e.address) by {
            if has_addr(r, a) {
                let w = choose|w: int| 0 <= w < r.len() && r[w].address == a;
                if w > 0 {
                    assert(acc[w - 1].address == a);
                }
            }
            if has_addr(acc, a) {
                let w = choose|w: int| 0 <= w < acc.len() && acc[w].address == a;
                assert(r[w + 1].address == a);
            }
            if a == e.address {
                assert(r[0].address == a);
            }
        }
        assert(!has_addr(acc, e.address)) by {
            if has_addr(acc, e.address) {
                let w = choose|w: int| 0 <= w < acc.len() && (#[trigger] acc[w]).address
                    == e.address;
                if w > 0 {
                    assert(acc[0].address < acc[w].address);
                }
            }
        }
    } else if e.address == acc[0].address {
        assert(acc[0].address == e.address);
        assert(has_addr(acc, e.address));
    } else {
        let acc1 = acc.drop_first();
        assert(sorted_addrs(acc1)) by {
            assert(forall|j: int| 0 <= j < acc1.len() ==> (#[trigger] acc1[j]) == acc[j + 1]);
        }
        lemma_insert_addr(acc1, e);
        let r1 = insert_addr(acc1, e);
        assert(r == seq![acc[0]] + r1);
        assert(forall|j: int| 0 <= j < r1.len() ==> (#[trigger] r[j + 1]) == r1[j]);
        assert(forall|j: int| 0 <= j < acc1.len() ==> (#[trigger] acc1[j]) == acc[j + 1]);
        assert(sorted_addrs(r)) by {
            assert forall|i: int, j: int| 0 <= i < j < r.len() implies (#[trigger] r[i]).address < (
            #[trigger] r[j]).address by {
                if i == 0 {
                    assert(r[0] == acc[0]);
                    let x = r1[j - 1];
                    assert(r1.contains(x));
                    if !(acc1.contains(x) || x == e) {
                        assert(false);
                    }
                    if acc1.contains(x) {
                        let w = choose|w: int| 0 <= w < acc1.len() && acc1[w] == x;
                        assert(acc[0].address < acc[w + 1].address);
                    }
                }
            }
        }
        assert forall|x: LocationEntry| #[trigger] r.contains(x) implies acc.contains(x) || x
            == e by {
            let w = choose|w: int| 0 <= w < r.len() && r[w] == x;
            if w == 0 {
                assert(acc[0] == x);
            } else {
                assert(r1[w - 1] == x);
                assert(r1.contains(x));
                if acc1.contains(x) {
                    let w2 = choose|w2: int| 0 <= w2 < acc1.len() && acc1[w2] == x;
                    assert(acc[w2 + 1] == x);
                }
            }
        }
        assert forall|x: LocationEntry| #[trigger] acc.contains(x) implies r.contains(x) by {
            let w = choose|w: int| 0 <= w < acc.len() && acc[w] == x;
            if w == 0 {
                assert(r[0] == x);
            } else {
                assert(acc1[w - 1] == x);
                assert(acc1.contains(acc1[w - 1]));
                assert(r1.contains(x));
                let w2 = choose|w2: int| 0 <= w2 < r1.len() && r1[w2] == x;
                assert(r[w2 + 1] == x);
            }
        }
        assert forall|a: u64| #[trigger]
            has_addr(r, a) == (has_addr(acc, a) || a == e.address) by {
            if has_addr(r, a) {
                let w = choose|w: int| 0 <= w < r.len() && r[w].address == a;
                if w == 0 {
                    assert(acc[0].address == a);
                } else {
                    assert(r1[w - 1].address == a);
                    assert(has_addr(r1, a));
                    if has_addr(acc1, a) {
                        let w2 = choose|w2: int| 0 <= w2 < acc1.len() && acc1[w2].address == a;
                        assert(acc[w2 + 1].address == a);
                    }
                }
            }
            if has_addr(acc, a) {
                let w = choose|w: int| 0 <= w < acc.len() && acc[w].address == a;
                if w == 0 {
                    assert(r[0].address == a);
                } else {
                    assert(acc1[w - 1].address == a);
                    assert(has_addr(acc1, a));
                    assert(has_addr(r1, a));
                    let w2 = choose|w2: int| 0 <= w2 < r1.len() && r1[w2].address == a;
                    assert(r[w2 + 1].address == a);
                }
            }
            if a == e.address {
                assert(has_addr(r1, a));
                let w2 = choose|w2: int| 0 <= w2 < r1.len() && r1[w2].address == a;
                assert(r[w2 + 1].address == a);
            }
        }
        if has_addr(acc, e.address) {
            let w = choose|w: int| 0 <= w < acc.len() && acc[w].address == e.address;
            assert(w > 0);
            assert(acc1[w - 1].address == e.address);
            assert(has_addr(acc1, e.address));
            assert(r1 == acc1);
            assert(r =~= acc);
        }
        if !has_addr(acc, e.address) {
            assert(!has_addr(acc1, e.address)) by {
                if has_addr(acc1, e.address) {
                    let w = choose|w: int| 0 <= w < acc1.len() && acc1[w].address == e.address;
                    assert(acc[w + 1].address == e.address);
                }
            }
            assert(r1.contains(e));
            let w2 = choose|w2: int| 0 <= w2 < r1.len() && r1[w2] == e;
            assert(r[w2 + 1] == e);
        }
    }
}

/// The address table of `s`: entries in strictly increasing address order,
/// the first-encountered entry winning for each address.
pub open spec fn addr_table(s: Seq<LocationEntry>) -> Seq<LocationEntry>
    decreases s.len(),
{
    if s.len() == 0 {
        Seq::<LocationEntry>::empty()
    } else {
        insert_addr(addr_table(s.drop_last()), s.last())
    }
}

/// The address table is strictly sorted, covers exactly the input's
/// addresses, and keeps for each address the first-encountered entry.
pub proof fn lemma_addr_table(s: Seq<LocationEntry>)
    ensures
        sorted_addrs(addr_table(s)),
        forall|a: u64| #[trigger] has_addr(addr_table(s), a) == has_addr(s, a),
        forall|i: int|
            0 <= i < addr_table(s).len() ==> 0 <= first_with_addr(
                s,
                (#[trigger] addr_table(s)[i]).address,
            ) < s.len() && addr_table(s)[i] == s[first_with_addr(s, addr_table(s)[i].address)],
    decreases s.len(),
{
    if s.len() > 0 {
        let s0 = s.drop_last();
        let e = s.last();
        lemma_addr_table(s0);
        let t = addr_table(s0);
        let t2 = addr_table(s);
        lemma_insert_addr(t, e);
        assert(forall|j: int| 0 <= j < s0.len() ==> (#[trigger] s0[j]) == s[j]);
        assert(s[s.len() - 1] == e);
        assert forall|a: u64| #[trigger] has_addr(t2, a) == has_addr(s, a) by {
            if has_addr(t2, a) {
                if has_addr(t, a) {
                    assert(has_addr(s0, a));
                    let w = choose|w: int| 0 <= w < s0.len() && s0[w].address == a;
                    assert(s[w].address == a);
                } else {
                    assert(a == e.address);
                    assert(s[s.len() - 1].address == a);
                }
            }
            if has_addr(s, a) {
                let w = choose|w: int| 0 <= w < s.len() && s[w].address == a;
                if w < s0.len() {
                    assert(s0[w].address == a);
                    assert(has_addr(s0, a));
                } else {
                    assert(a == e.address);
                }
            }
        }
        assert forall|i: int| 0 <= i < t2.len() implies 0 <= first_with_addr(
            s,
            (#[trigger] t2[i]).address,
        ) < s.len() && t2[i] == s[first_with_addr(s, t2[i].address)] by {
            let x = t2[i];
            assert(t2.contains(x));
            lemma_first_with_addr(s, x.address);
            lemma_first_with_addr(s0, x.address);
            if t.contains(x) {
                let w = choose|w: int| 0 <= w < t.len() && t[w] == x;
                let f0 = first_with_addr(s0, x.address);
                assert(t[w] == s0[first_with_addr(s0, t[w].address)]);
                assert(0 <= f0 < s0.len() && s0[f0] == x);
                let f = first_with_addr(s, x.address);
                assert(f >= 0) by {
                    if f < 0 {
                        assert(s[f0].address != x.address);
                        assert(s[f0] == s0[f0]);
                    }
                }
                assert(f == f0) by {
                    if f < f0 {
                        assert(s0[f].address != x.address);
                        assert(s[f] == s0[f]);
                    }
                    if f > f0 {
                        assert(s[f0].address != x.address);
                        assert(s[f0] == s0[f0]);
                    }
                }
                assert(s[f] == s0[f0]);
            } else {
                assert(x == e);
                assert(!has_addr(t, e.address)) by {
                    if has_addr(t, e.address) {
                        assert(t2 == t);
                        assert(t.contains(x));
                    }
                }
                assert(!has_addr(s0, e.address));
                let f = first_with_addr(s, e.address);
                assert(f >= 0) by {
                    if f < 0 {
                        assert(s[s.len() - 1].address != e.address);
                    }
                }
                assert(f == s.len() - 1) by {
                    if f < s.len() - 1 {
                        assert(s0[f] == s[f]);
                        assert(has_addr(s0, e.address));
                    }
                }
            }
        }
    }
}

/// A file's processed table: its entries with repeated positions removed
/// (first one wins), ordered by strictly increasing address with repeated
/// addresses removed (first one wins).
pub open spec fn spec_file_lines(entries: Seq<LocationEntry>) -> Seq<LocationEntry> {
    addr_table(dedup_pos(entries))
}

/// One source file's resolved locations.
#[derive(Debug, PartialEq)]
pub struct SourceFile {
    pub file: String,
    pub language: u16,
    pub lines: Vec<LocationEntry>,
}

/// One compilation unit's resolved files, in first-seen order.
#[derive(Debug, PartialEq)]
pub struct SourceUnit {
    pub name: String,
    pub directory: String,
    pub files: Vec<SourceFile>,
}

/// The run's outcome document: the resolved units, or one error message.
#[derive(Debug, PartialEq)]
pub struct SourceResult {
    pub units: Option<Vec<SourceUnit>>,
    pub error: Option<String>,
}

/// One raw location paired with its canonical file, before any global
/// deduplication.
#[derive(Debug, PartialEq)]
pub struct GlobalEntry {
    pub file: String,
    pub entry: LocationEntry,
}

/// A file's accumulating table in the mathematical model.
pub ghost struct GFile {
    pub file: Seq<char>,
    pub entries: Seq<LocationEntry>,
}

/// The first index of `groups` keyed by `k`, or -1 when none is.
pub open spec fn group_index(groups: Seq<GFile>, k: Seq<char>) -> int
    decreases groups.len(),
{
    if groups.len() == 0 {
        -1
    } else if groups[0].file == k {
        0
    } else if group_index(groups.drop_first(), k) < 0 {
        -1
    } else {
        1 + group_index(groups.drop_first(), k)
    }
}

/// `group_index` names the first group holding the key, when one exists.
pub proof fn lemma_group_index(groups: Seq<GFile>, k: Seq<char>)
    ensures
        group_index(groups, k) >= 0 ==> group_index(groups, k) < groups.len()
            && groups[group_index(groups, k)].file == k && (forall|j: int|
            0 <= j < group_index(groups, k) ==> (#[trigger] groups[j]).file != k),
        group_index(groups, k) < 0 ==> forall|j: int|
            0 <= j < groups.len() ==> (#[trigger] groups[j]).file != k,
    decreases groups.len(),
{
    if groups.len() > 0 && groups[0].file != k {
        lemma_group_index(groups.drop_first(), k);
        assert(forall|j: int|
            1 <= j < groups.len() ==> (#[trigger] groups[j]) == groups.drop_first()[j - 1]);
    }
}

/// Appends one emitted entry to its file's table, creating the table at
/// the end on the key's first appearance.
pub open spec fn group_add(groups: Seq<GFile>, e: GEmit) -> Seq<GFile> {
    let gi = group_index(groups, e.key);
    if gi >= 0 {
        groups.update(gi, GFile { file: groups[gi].file, entries: groups[gi].entries.push(e.entry) })
    } else {
        groups.push(GFile { file: e.key, entries: seq![e.entry] })
    }
}

/// The per-file tables that a run of emitted entries builds, files in
/// first-seen order, each file's entries in emit order.
pub open spec fn spec_group(emits: Seq<GEmit>) -> Seq<GFile>
    decreases emits.len(),
{
    if emits.len() == 0 {
        Seq::<GFile>::empty()
    } else {
        group_add(spec_group(emits.drop_last()), emits.last())
    }
}

/// The mathematical image of a raw per-file accumulation.
pub open spec fn raw_groups(files: Seq<SourceFile>) -> Seq<GFile> {
    files.map_values(|f: SourceFile| GFile { file: f.file@, entries: f.lines@ })
}

/// Every accumulated file carries the unit's language.
pub open spec fn all_lang(files: Seq<SourceFile>, language: u16) -> bool {
    forall|i: int| 0 <= i < files.len() ==> (#[trigger] files[i]).language == language
}

/// Appends one entry to the file keyed `key`, creating that file at the
/// end when it is new.
fn add_to_file(files: &mut Vec<SourceFile>, key: String, language: u16, entry: LocationEntry)
    ensures
        raw_groups(final(files)@) == group_add(
            raw_groups(old(files)@),
            (GEmit { key: key@, entry }),
        ),
        all_lang(old(files)@, language) ==> all_lang(final(files)@, language),
{
    let ghost g0 = raw_groups(old(files)@);
    let mut fi: usize = 0;
    while fi < files.len()
        invariant
            fi <= files@.len(),
            *files == *old(files),
            g0 == raw_groups(old(files)@),
            forall|j: int| 0 <= j < fi ==> (#[trigger] g0[j]).file != key@,
        decreases files@.len() - fi,
    {
        if files[fi].file == key {
            proof {
                lemma_group_index(g0, key@);
                assert(g0[fi as int].file == key@);
                assert(group_index(g0, key@) == fi as int);
            }
            let mut f = files.remove(fi);
            f.lines.push(entry);
            files.insert(fi, f);
            proof {
                assert(raw_groups(files@) =~~= group_add(g0, (GEmit { key: key@, entry })));
            }
            return;
        }
        fi = fi + 1;
    }
    proof {
        lemma_group_index(g0, key@);
        assert(group_index(g0, key@) < 0) by {
            if group_index(g0, key@) >= 0 {
                assert(g0[group_index(g0, key@)].file != key@);
            }
        }
    }
    let mut lines: Vec<LocationEntry> = Vec::new();
    lines.push(entry);
    files.push(SourceFile { file: key, language, lines });
    proof {
        assert(raw_groups(files@) =~~= group_add(g0, (GEmit { key: key@, entry })));
    }
}

/// The processed files match the emitted groups: same keys in first-seen
/// order, the unit's language on each, and each file's lines
/// post-processed.
pub open spec fn files_match(files: Seq<SourceFile>, groups: Seq<GFile>, language: u16) -> bool {
    &&& files.len() == groups.len()
    &&& forall|i: int|
        0 <= i < groups.len() ==> {
            &&& (#[trigger] files[i]).file@ == groups[i].file
            &&& files[i].language == language
            &&& files[i].lines@ == spec_file_lines(groups[i].entries)
        }
}

/// The raw global entries mirror the emitted run, in emit order.
pub open spec fn globals_match(locs: Seq<GlobalEntry>, emits: Seq<GEmit>) -> bool {
    &&& locs.len() == emits.len()
    &&& forall|i: int|
        0 <= i < emits.len() ==> (#[trigger] locs[i]).file@ == emits[i].key && locs[i].entry
            == emits[i].entry
}

/// Walks one unit's rows and returns its grouped, post-processed source
/// files together with the raw located entries in emit order. Fails with
/// `DebugInfoDecodeFailure` exactly when a processed row reports a line or
/// column of 0 or a value that does not fit, the decoder's contract
/// violations.
pub fn resolve_unit(offset: u64, unit: &UnitData) -> (r: Result<
    (SourceUnit, Vec<GlobalEntry>),
    ResolverError,
>)
    ensures
        match spec_emits(offset, lang_quirk(unit.language), unit@.rows, FuncState::Start) {
            None => (r matches Err(e) && e == ResolverError::DebugInfoDecodeFailure),
            Some(emits) => (r matches Ok(out) && out.0.name@ == unit.name@ && out.0.directory@
                == unit.directory@ && files_match(out.0.files@, spec_group(emits), unit.language)
                && globals_match(out.1@, emits)),
        },
{
    let rust_quirk = unit.language == LANG_RUST;
    let ghost grows = unit@.rows;
    let mut files: Vec<SourceFile> = Vec::new();
    let mut glob: Vec<GlobalEntry> = Vec::new();
    let ghost mut emitted = Seq::<GEmit>::empty();
    let mut st = FuncState::Start;
    let mut n: usize = 0;
    proof {
        assert(grows.skip(0) =~= grows);
        assert(raw_groups(files@) =~= spec_group(emitted));
        if spec_emits(offset, rust_quirk, grows, FuncState::Start) is Some {
            assert(emitted + spec_emits(offset, rust_quirk, grows, FuncState::Start)->0
                =~= spec_emits(offset, rust_quirk, grows, FuncState::Start)->0);
        }
    }
    while n < unit.rows.len()
        invariant
            n <= unit.rows@.len(),
            grows == unit@.rows,
            grows.len() == unit.rows@.len(),
            rust_quirk == lang_quirk(unit.language),
            match spec_emits(offset, rust_quirk, grows.skip(n as int), st) {
                None => spec_emits(offset, rust_quirk, grows, FuncState::Start) is None,
                Some(rest) => spec_emits(offset, rust_quirk, grows, FuncState::Start) == Some(
                    emitted + rest,
                ),
            },
            raw_groups(files@) == spec_group(emitted),
            all_lang(files@, unit.language),
            globals_match(glob@, emitted),
        decreases unit.rows@.len() - n,
    {
        let row = &unit.rows[n];
        let ghost grow = grows[n as int];
        let ghost tail = grows.skip(n as int);
        let ghost emitted0 = emitted;
        proof {
            assert(grow == row@);
            assert(tail[0] == grow);
            assert(tail.drop_first() =~= grows.skip(n as int + 1));
        }
        let st1 = match st {
            FuncState::Start => {
                if row.address == 0 {
                    FuncState::Ignored
                } else {
                    FuncState::Normal
                }
            },
            FuncState::Ignored => FuncState::Ignored,
            FuncState::Normal => FuncState::Normal,
        };
        let st2 = if row.end_sequence {
            FuncState::Start
        } else {
            st1
        };
        let ghost outcome = spec_row_outcome(offset, rust_quirk, grow);
        if st1 == FuncState::Ignored {
            proof {
                assert(spec_emits(offset, rust_quirk, tail, st) == spec_emits(
                    offset,
                    rust_quirk,
                    grows.skip(n as int + 1),
                    st2,
                ));
            }
        } else {
            let mut emitted_one = false;
            let ghost mut gkey = Seq::<char>::empty();
            let ghost mut gentry = (LocationEntry { address: 0, pos: Pos { line: 0, column: 0 } });
            match &row.file {
                None => {
                    proof {
                        assert(outcome is Skip);
                    }
                },
                Some(f) => {
                    match row.line {
                        None => {
                            proof {
                                assert(outcome is Skip);
                            }
                        },
                        Some(l) => {
                            if l == 0 {
                                proof {
                                    assert(outcome is Fatal);
                                    assert(spec_emits(offset, rust_quirk, tail, st) is None);
                                }
                                return Err(ResolverError::DebugInfoDecodeFailure);
                            }
                            let line0 = l - 1;
                            if line0 > 0xFFFF_FFFFu64 {
                                proof {
                                    assert(outcome is Fatal);
                                    assert(spec_emits(offset, rust_quirk, tail, st) is None);
                                }
                                return Err(ResolverError::DebugInfoDecodeFailure);
                            }
                            let col: u32;
                            match row.column {
                                RowColumn::LeftEdge => {
                                    col = 0;
                                },
                                RowColumn::Column(c) => {
                                    if c == 0 {
                                        proof {
                                            assert(outcome is Fatal);
                                            assert(spec_emits(offset, rust_quirk, tail, st)
                                                is None);
                                        }
                                        return Err(ResolverError::DebugInfoDecodeFailure);
                                    }
                                    let cc = if rust_quirk {
                                        c - 1 + 1
                                    } else {
                                        c - 1
                                    };
                                    if cc > 0xFFFF_FFFFu64 {
                                        proof {
                                            assert(outcome is Fatal);
                                            assert(spec_emits(offset, rust_quirk, tail, st)
                                                is None);
                                        }
                                        return Err(ResolverError::DebugInfoDecodeFailure);
                                    }
                                    col = cc as u32;
                                },
                            }
                            let addr = match offset.checked_add(row.address) {
                                None => {
                                    proof {
                                        assert(outcome is Fatal);
                                        assert(spec_emits(offset, rust_quirk, tail, st) is None);
                                    }
                                    return Err(ResolverError::DebugInfoDecodeFailure);
                                },
                                Some(a) => a,
                            };
                            let mut path = match &f.directory {
                                Some(d) => Path::new(d.as_str()),
                                None => {
                                    proof {
                                        reveal_strlit(".");
                                        assert("."@ =~= seq!['.']);
                                        lemma_norm_slashes_identity("."@);
                                    }
                                    Path::new(".")
                                },
                            };
                            path.push(f.path_name.as_str());
                            let key = path.to_string();
                            let entry = LocationEntry {
                                address: addr,
                                pos: Pos { line: line0 as u32, column: col },
                            };
                            proof {
                                gkey = key@;
                                gentry = entry;
                                assert(outcome == (RowOutcome::Emit { key: key@, entry }));
                            }
                            glob.push(GlobalEntry { file: key.clone(), entry });
                            add_to_file(&mut files, key, unit.language, entry);
                            emitted_one = true;
                            proof {
                                emitted = emitted.push(GEmit { key: gkey, entry: gentry });
                            }
                        },
                    }
                },
            }
            proof {
                let ghost e = GEmit { key: gkey, entry: gentry };
                if emitted_one {
                    assert(outcome == (RowOutcome::Emit { key: e.key, entry: e.entry }));
                    assert(emitted0.push(e).drop_last() =~= emitted0);
                    assert(emitted0.push(e).last() == e);
                    assert(spec_group(emitted) == group_add(spec_group(emitted0), e));
                    assert(globals_match(glob@, emitted)) by {
                        assert(glob@[glob@.len() - 1].file@ == e.key);
                        assert(forall|i: int|
                            0 <= i < emitted0.len() ==> (#[trigger] glob@[i]) == glob@.subrange(
                                0,
                                emitted0.len() as int,
                            )[i]);
                    }
                    match spec_emits(offset, rust_quirk, grows.skip(n as int + 1), st2) {
                        None => {
                            assert(spec_emits(offset, rust_quirk, tail, st) is None);
                        },
                        Some(rest) => {
                            assert(spec_emits(offset, rust_quirk, tail, st) == Some(
                                seq![e] + rest,
                            ));
                            assert(emitted0 + (seq![e] + rest) =~= emitted + rest);
                        },
                    }
                } else {
                    assert(outcome is Skip);
                    assert(spec_emits(offset, rust_quirk, tail, st) == spec_emits(
                        offset,
                        rust_quirk,
                        grows.skip(n as int + 1),
                        st2,
                    ));
                }
            }
        }
        st = st2;
        n = n + 1;
    }
    proof {
        assert(grows.skip(grows.len() as int) =~= Seq::<GRow>::empty());
        assert(spec_emits(offset, rust_quirk, grows.skip(n as int), st) == Some(
            Seq::<GEmit>::empty(),
        ));
        assert(emitted + Seq::<GEmit>::empty() =~= emitted);
    }
    let mut processed: Vec<SourceFile> = Vec::new();
    let mut fi: usize = 0;
    let ghost groups = spec_group(emitted);
    while fi < files.len()
        invariant
            fi <= files@.len(),
            groups == raw_groups(files@),
            all_lang(files@, unit.language),
            processed@.len() == fi,
            forall|i: int|
                0 <= i < fi ==> {
                    &&& (#[trigger] processed@[i]).file@ == groups[i].file
                    &&& processed@[i].language == unit.language
                    &&& processed@[i].lines@ == spec_file_lines(groups[i].entries)
                },
        decreases files@.len() - fi,
    {
        let f = &files[fi];
        let d = dedup_pos_exec(&f.lines);
        let t = addr_table_exec(&d);
        processed.push(SourceFile { file: f.file.clone(), language: f.language, lines: t });
        fi = fi + 1;
    }
    let su = SourceUnit {
        name: unit.name.clone(),
        directory: unit.directory.clone(),
        files: processed,
    };
    Ok((su, glob))
}

/// Where a scan stopped is where `insert_addr` acts: at the first index
/// whose address is not below the new entry's.
proof fn lemma_insert_addr_at(acc: Seq<LocationEntry>, e: LocationEntry, p: int)
    requires
        sorted_addrs(acc),
        0 <= p <= acc.len(),
        forall|j: int| 0 <= j < p ==> (#[trigger] acc[j]).address < e.address,
        p < acc.len() ==> acc[p].address >= e.address,
    ensures
        insert_addr(acc, e) == if p < acc.len() && acc[p].address == e.address {
            acc
        } else {
            acc.insert(p, e)
        },
    decreases acc.len(),
{
    if acc.len() == 0 {
        assert(insert_addr(acc, e) =~= acc.insert(0, e));
    } else if e.address < acc[0].address {
        assert(p == 0) by {
            if p > 0 {
                assert(acc[0].address < e.address);
            }
        }
        assert(insert_addr(acc, e) =~= acc.insert(0, e));
    } else if e.address == acc[0].address {
        assert(p == 0) by {
            if p > 0 {
                assert(acc[0].address < e.address);
            }
        }
    } else {
        assert(p >= 1) by {
            if p == 0 {
                assert(acc[0].address >= e.address);
            }
        }
        let acc1 = acc.drop_first();
        assert(forall|j: int| 0 <= j < acc1.len() ==> (#[trigger] acc1[j]) == acc[j + 1]);
        assert(sorted_addrs(acc1));
        lemma_insert_addr_at(acc1, e, p - 1);
        if p - 1 < acc1.len() && acc1[p - 1].address == e.address {
            assert(insert_addr(acc, e) =~= acc);
        } else {
            assert(seq![acc[0]] + acc1.insert(p - 1, e) =~= acc.insert(p, e));
        }
    }
}

/// Whether some already-kept entry claims `e`'s position.
fn find_pos(v: &Vec<LocationEntry>, e: &LocationEntry) -> (r: bool)
    ensures
        r == has_pos(v@, *e),
{
    let mut i: usize = 0;
    while i < v.len()
        invariant
            i <= v@.len(),
            forall|j: int| 0 <= j < i ==> !same_pos(#[trigger] v@[j], *e),
        decreases v@.len() - i,
    {
        if v[i].pos.line == e.pos.line && v[i].pos.column == e.pos.column {
            proof {
                assert(same_pos(v@[i as int], *e));
            }
            return true;
        }
        i = i + 1;
    }
    proof {
        assert(!has_pos(v@, *e)) by {
            if has_pos(v@, *e) {
                let w = choose|w: int| 0 <= w < v@.len() && same_pos(#[trigger] v@[w], *e);
                assert(!same_pos(v@[w], *e));
            }
        }
    }
    false
}

/// Keeps each entry whose position no earlier entry already claimed.
fn dedup_pos_exec(entries: &Vec<LocationEntry>) -> (r: Vec<LocationEntry>)
    ensures
        r@ == dedup_pos(entries@),
{
    let mut out: Vec<LocationEntry> = Vec::new();
    let mut n: usize = 0;
    proof {
        assert(entries@.take(0) =~= Seq::<LocationEntry>::empty());
    }
    while n < entries.len()
        invariant
            n <= entries@.len(),
            out@ == dedup_pos(entries@.take(n as int)),
        decreases entries@.len() - n,
    {
        let e = entries[n];
        proof {
            lemma_dedup_pos(entries@.take(n as int));
            assert(entries@.take(n + 1).drop_last() =~= entries@.take(n as int));
            assert(entries@.take(n + 1).last() == entries@[n as int]);
        }
        if !find_pos(&out, &e) {
            out.push(e);
        }
        n = n + 1;
    }
    proof {
        assert(entries@.take(entries@.len() as int) =~= entries@);
    }
    out
}

/// Builds the strictly sorted address table, the first-encountered entry
/// winning for each address.
fn addr_table_exec(entries: &Vec<LocationEntry>) -> (r: Vec<LocationEntry>)
    ensures
        r@ == addr_table(entries@),
{
    let mut out: Vec<LocationEntry> = Vec::new();
    let mut n: usize = 0;
    proof {
        assert(entries@.take(0) =~= Seq::<LocationEntry>::empty());
    }
    while n < entries.len()
        invariant
            n <= entries@.len(),
            out@ == addr_table(entries@.take(n as int)),
        decreases entries@.len() - n,
    {
        let e = entries[n];
        proof {
            lemma_addr_table(entries@.take(n as int));
            assert(entries@.take(n + 1).drop_last() =~= entries@.take(n as int));
            assert(entries@.take(n + 1).last() == entries@[n as int]);
        }
        let mut idx: usize = 0;
        while idx < out.len() && out[idx].address < e.address
            invariant
                idx <= out@.len(),
                forall|j: int| 0 <= j < idx ==> (#[trigger] out@[j]).address < e.address,
            decreases out@.len() - idx,
        {
            idx = idx + 1;
        }
        proof {
            lemma_addr_table(entries@.take(n as int));
            lemma_insert_addr_at(out@, e, idx as int);
        }
        if idx < out.len() && out[idx].address == e.address {
        } else {
            out.insert(idx, e);
        }
        n = n + 1;
    }
    proof {
        assert(entries@.take(entries@.len() as int) =~= entries@);
    }
    out
}


/// One row of the compact output: a surviving module-absolute address
/// with its file's index and zero-based position.
#[derive(Debug, Clone, Copy, PartialEq, Eq, Structural)]
pub struct CompactLocation {
    pub address: u64,
    pub file_index: u64,
    pub line: u64,
    pub column: u64,
}

/// The compact output document: one global file list and one global
/// location table.
#[derive(Debug, PartialEq)]
pub struct CompactResult {
    pub files: Vec<String>,
    pub locations: Vec<CompactLocation>,
}

/// Addresses strictly increase along `s`.
pub open spec fn sorted_addrs_c(s: Seq<CompactLocation>) -> bool {
    forall|i: int, j: int|
        0 <= i < j < s.len() ==> (#[trigger] s[i]).address < (#[trigger] s[j]).address
}

/// Some entry of `s` holds address `a`.
pub open spec fn has_addr_c(s: Seq<CompactLocation>, a: u64) -> bool {
    exists|j: int| 0 <= j < s.len() && (#[trigger] s[j]).address == a
}

/// The first index of `s` holding address `a`, or -1 when none does.
pub open spec fn first_with_addr_c(s: Seq<CompactLocation>, a: u64) -> int
    decreases s.len(),
{
    if s.len() == 0 {
        -1
    } else if s[0].address == a {
        0
    } else if first_with_addr_c(s.drop_first(), a) < 0 {
        -1
    } else {
        1 + first_with_addr_c(s.drop_first(), a)
    }
}

/// `first_with_addr_c` names the first entry holding the address, when one
/// exists.
pub proof fn lemma_first_with_addr_c(s: Seq<CompactLocation>, a: u64)
    ensures
        first_with_addr_c(s, a) >= 0 ==> first_with_addr_c(s, a) < s.len() && s[first_with_addr_c(
            s,
            a,
        )].address == a && (forall|j: int|
            0 <= j < first_with_addr_c(s, a) ==> (#[trigger] s[j]).address != a),
        first_with_addr_c(s, a) < 0 ==> forall|j: int|
            0 <= j < s.len() ==> (#[trigger] s[j]).address != a,
    decreases s.len(),
{
    if s.len() > 0 && s[0].address != a {
        lemma_first_with_addr_c(s.drop_first(), a);
        assert(forall|j: int| 1 <= j < s.len() ==> (#[trigger] s[j]) == s.drop_first()[j - 1]);
    }
}

/// Inserts `e` into an address-sorted list unless its address is already
/// present, in which case the present entry stays.
pub open spec fn insert_addr_c(acc: Seq<CompactLocation>, e: CompactLocation) -> Seq<CompactLocation>
    decreases acc.len(),
{
    if acc.len() == 0 {
        seq![e]
    } else if e.address < acc[0].address {
        seq![e] + acc
    } else if e.address == acc[0].address {
        acc
    } else {
        seq![acc[0]] + insert_addr_c(acc.drop_first(), e)
    }
}

/// What one sorted insertion preserves and adds.
#[verifier::rlimit(50)]
pub proof fn lemma_insert_addr_c(acc: Seq<CompactLocation>, e: CompactLocation)
    requires
        sorted_addrs_c(acc),
    ensures
        sorted_addrs_c(insert_addr_c(acc, e)),
        forall|a: u64| #[trigger]
            has_addr_c(insert_addr_c(acc, e), a) == (has_addr_c(acc, a) || a == e.address),
        forall|x: CompactLocation| #[trigger]
            insert_addr_c(acc, e).contains(x) ==> acc.contains(x) || x == e,
        forall|x: CompactLocation| #[trigger] acc.contains(x) ==> insert_addr_c(acc, e).contains(x),
        has_addr_c(acc, e.address) ==> insert_addr_c(acc, e) == acc,
        !has_addr_c(acc, e.address) ==> insert_addr_c(acc, e).contains(e),
    decreases acc.len(),
{
    let r = insert_addr_c(acc, e);
    if acc.len() == 0 {
        assert(r[0] == e);
        assert(r.contains(e));
        assert forall|x: CompactLocation| #[trigger] r.contains(x) implies acc.contains(x) || x
            == e by {
            let w = choose|w: int| 0 <= w < r.len() && r[w] == x;
            assert(w == 0);
        }
    } else if e.address < acc[0].address {
        assert(r == seq![e] + acc);
        assert(r[0] == e);
        assert(r.contains(e));
        assert forall|x: CompactLocation| #[trigger] r.contains(x) implies acc.contains(x) || x
            == e by {
            let w = choose|w: int| 0 <= w < r.len() && r[w] == x;
            if w > 0 {
                assert(acc[w - 1] == x);
            }
        }
        assert forall|x: CompactLocation| #[trigger] acc.contains(x) implies r.contains(x) by {
            let w = choose|w: int| 0 <= w < acc.len() && acc[w] == x;
            assert(r[w + 1] == x);
        }
        assert forall|a: u64| #[trigger]
            has_addr_c(r, a) == (has_addr_c(acc, a) || a == e.address) by {
            if has_addr_c(r, a) {
                let w = choose|w: int| 0 <= w < r.len() && r[w].address == a;
                if w > 0 {
                    assert(acc[w - 1].address == a);
                }
            }
            if has_addr_c(acc, a) {
                let w = choose|w: int| 0 <= w < acc.len() && acc[w].address == a;
                assert(r[w + 1].address == a);
            }
            if a == e.address {
                assert(r[0].address == a);
            }
        }
        assert(!has_addr_c(acc, e.address)) by {
            if has_addr_c(acc, e.address) {
                let w = choose|w: int| 0 <= w < acc.len() && (#[trigger] acc[w]).address
                    == e.address;
                if w > 0 {
                    assert(acc[0].address < acc[w].address);
                }
            }
        }
    } else if e.address == acc[0].address {
        assert(acc[0].address == e.address);
        assert(has_addr_c(acc, e.address));
    } else {
        let acc1 = acc.drop_first();
        assert(sorted_addrs_c(acc1)) by {
            assert(forall|j: int| 0 <= j < acc1.len() ==> (#[trigger] acc1[j]) == acc[j + 1]);
        }
        lemma_insert_addr_c(acc1, e);
        let r1 = insert_addr_c(acc1, e);
        assert(r == seq![acc[0]] + r1);
        assert(forall|j: int| 0 <= j < r1.len() ==> (#[trigger] r[j + 1]) == r1[j]);
        assert(forall|j: int| 0 <= j < acc1.len() ==> (#[trigger] acc1[j]) == acc[j + 1]);
        assert(sorted_addrs_c(r)) by {
            assert forall|i: int, j: int| 0 <= i < j < r.len() implies (#[trigger] r[i]).address < (
            #[trigger] r[j]).address by {
                if i == 0 {
                    assert(r[0] == acc[0]);
                    let x = r1[j - 1];
                    assert(r1.contains(x));
                    if !(acc1.contains(x) || x == e) {
                        assert(false);
                    }
                    if acc1.contains(x) {
                        let w = choose|w: int| 0 <= w < acc1.len() && acc1[w] == x;
                        assert(acc[0].address < acc[w + 1].address);
                    }
                }
            }
        }
        assert forall|x: CompactLocation| #[trigger] r.contains(x) implies acc.contains(x) || x
            == e by {
            let w = choose|w: int| 0 <= w < r.len() && r[w] == x;
            if w == 0 {
                assert(acc[0] == x);
            } else {
                assert(r1[w - 1] == x);
                assert(r1.contains(x));
                if acc1.contains(x) {
                    let w2 = choose|w2: int| 0 <= w2 < acc1.len() && acc1[w2] == x;
                    assert(acc[w2 + 1] == x);
                }
            }
        }
        assert forall|x: CompactLocation| #[trigger] acc.contains(x) implies r.contains(x) by {
            let w = choose|w: int| 0 <= w < acc.len() && acc[w] == x;
            if w == 0 {
                assert(r[0] == x);
            } else {
                assert(acc1[w - 1] == x);
                assert(acc1.contains(acc1[w - 1]));
                assert(r1.contains(x));
                let w2 = choose|w2: int| 0 <= w2 < r1.len() && r1[w2] == x;
                assert(r[w2 + 1] == x);
            }
        }
        assert forall|a: u64| #[trigger]
            has_addr_c(r, a) == (has_addr_c(acc, a) || a == e.address) by {
            if has_addr_c(r, a) {
                let w = choose|w: int| 0 <= w < r.len() && r[w].address == a;
                if w == 0 {
                    assert(acc[0].address == a);
                } else {
                    assert(r1[w - 1].address == a);
                    assert(has_addr_c(r1, a));
                    if has_addr_c(acc1, a) {
                        let w2 = choose|w2: int| 0 <= w2 < acc1.len() && acc1[w2].address == a;
                        assert(acc[w2 + 1].address == a);
                    }
                }
            }
            if has_addr_c(acc, a) {
                let w = choose|w: int| 0 <= w < acc.len() && acc[w].address == a;
                if w == 0 {
                    assert(r[0].address == a);
                } else {
                    assert(acc1[w - 1].address == a);
                    assert(has_addr_c(acc1, a));
                    assert(has_addr_c(r1, a));
                    let w2 = choose|w2: int| 0 <= w2 < r1.len() && r1[w2].address == a;
                    assert(r[w2 + 1].address == a);
                }
            }
            if a == e.address {
                assert(has_addr_c(r1, a));
                let w2 = choose|w2: int| 0 <= w2 < r1.len() && r1[w2].address == a;
                assert(r[w2 + 1].address == a);
            }
        }
        if has_addr_c(acc, e.address) {
            let w = choose|w: int| 0 <= w < acc.len() && acc[w].address == e.address;
            assert(w > 0);
            assert(acc1[w - 1].address == e.address);
            assert(has_addr_c(acc1, e.address));
            assert(r1 == acc1);
            assert(r =~= acc);
        }
        if !has_addr_c(acc, e.address) {
            assert(!has_addr_c(acc1, e.address)) by {
                if has_addr_c(acc1, e.address) {
                    let w = choose|w: int| 0 <= w < acc1.len() && acc1[w].address == e.address;
                    assert(acc[w + 1].address == e.address);
                }
            }
            assert(r1.contains(e));
            let w2 = choose|w2: int| 0 <= w2 < r1.len() && r1[w2] == e;
            assert(r[w2 + 1] == e);
        }
    }
}

/// The address table of `s`: entries in strictly increasing address order,
/// the first-encountered entry winning for each address.
pub open spec fn addr_table_c(s: Seq<CompactLocation>) -> Seq<CompactLocation>
    decreases s.len(),
{
    if s.len() == 0 {
        Seq::<CompactLocation>::empty()
    } else {
        insert_addr_c(addr_table_c(s.drop_last()), s.last())
    }
}

/// The address table is strictly sorted, covers exactly the input's
/// addresses, and keeps for each address the first-encountered entry.
pub proof fn lemma_addr_table_c(s: Seq<CompactLocation>)
    ensures
        sorted_addrs_c(addr_table_c(s)),
        forall|a: u64| #[trigger] has_addr_c(addr_table_c(s), a) == has_addr_c(s, a),
        forall|i: int|
            0 <= i < addr_table_c(s).len() ==> 0 <= first_with_addr_c(
                s,
                (#[trigger] addr_table_c(s)[i]).address,
            ) < s.len() && addr_table_c(s)[i] == s[first_with_addr_c(s, addr_table_c(s)[i].address)],
    decreases s.len(),
{
    if s.len() > 0 {
        let s0 = s.drop_last();
        let e = s.last();
        lemma_addr_table_c(s0);
        let t = addr_table_c(s0);
        let t2 = addr_table_c(s);
        lemma_insert_addr_c(t, e);
        assert(forall|j: int| 0 <= j < s0.len() ==> (#[trigger] s0[j]) == s[j]);
        assert(s[s.len() - 1] == e);
        assert forall|a: u64| #[trigger] has_addr_c(t2, a) == has_addr_c(s, a) by {
            if has_addr_c(t2, a) {
                if has_addr_c(t, a) {
                    assert(has_addr_c(s0, a));
                    let w = choose|w: int| 0 <= w < s0.len() && s0[w].address == a;
                    assert(s[w].address == a);
                } else {
                    assert(a == e.address);
                    assert(s[s.len() - 1].address == a);
                }
            }
            if has_addr_c(s, a) {
                let w = choose|w: int| 0 <= w < s.len() && s[w].address == a;
                if w < s0.len() {
                    assert(s0[w].address == a);
                    assert(has_addr_c(s0, a));
                } else {
                    assert(a == e.address);
                }
            }
        }
        assert forall|i: int| 0 <= i < t2.len() implies 0 <= first_with_addr_c(
            s,
            (#[trigger] t2[i]).address,
        ) < s.len() && t2[i] == s[first_with_addr_c(s, t2[i].address)] by {
            let x = t2[i];
            assert(t2.contains(x));
            lemma_first_with_addr_c(s, x.address);
            lemma_first_with_addr_c(s0, x.address);
            if t.contains(x) {
                let w = choose|w: int| 0 <= w < t.len() && t[w] == x;
                let f0 = first_with_addr_c(s0, x.address);
                assert(t[w] == s0[first_with_addr_c(s0, t[w].address)]);
                assert(0 <= f0 < s0.len() && s0[f0] == x);
                let f = first_with_addr_c(s, x.address);
                assert(f >= 0) by {
                    if f < 0 {
                        assert(s[f0].address != x.address);
                        assert(s[f0] == s0[f0]);
                    }
                }
                assert(f == f0) by {
                    if f < f0 {
                        assert(s0[f].address != x.address);
                        assert(s[f] == s0[f]);
                    }
                    if f > f0 {
                        assert(s[f0].address != x.address);
                        assert(s[f0] == s0[f0]);
                    }
                }
                assert(s[f] == s0[f0]);
            } else {
                assert(x == e);
                assert(!has_addr_c(t, e.address)) by {
                    if has_addr_c(t, e.address) {
                        assert(t2 == t);
                        assert(t.contains(x));
                    }
                }
                assert(!has_addr_c(s0, e.address));
                let f = first_with_addr_c(s, e.address);
                assert(f >= 0) by {
                    if f < 0 {
                        assert(s[s.len() - 1].address != e.address);
                    }
                }
                assert(f == s.len() - 1) by {
                    if f < s.len() - 1 {
                        assert(s0[f] == s[f]);
                        assert(has_addr_c(s0, e.address));
                    }
                }
            }
        }
    }
}


/// Where a scan stopped is where `insert_addr_c` acts: at the first index
/// whose address is not below the new entry's.
proof fn lemma_insert_addr_c_at(acc: Seq<CompactLocation>, e: CompactLocation, p: int)
    requires
        sorted_addrs_c(acc),
        0 <= p <= acc.len(),
        forall|j: int| 0 <= j < p ==> (#[trigger] acc[j]).address < e.address,
        p < acc.len() ==> acc[p].address >= e.address,
    ensures
        insert_addr_c(acc, e) == if p < acc.len() && acc[p].address == e.address {
            acc
        } else {
            acc.insert(p, e)
        },
    decreases acc.len(),
{
    if acc.len() == 0 {
        assert(insert_addr_c(acc, e) =~= acc.insert(0, e));
    } else if e.address < acc[0].address {
        assert(p == 0) by {
            if p > 0 {
                assert(acc[0].address < e.address);
            }
        }
        assert(insert_addr_c(acc, e) =~= acc.insert(0, e));
    } else if e.address == acc[0].address {
        assert(p == 0) by {
            if p > 0 {
                assert(acc[0].address < e.address);
            }
        }
    } else {
        assert(p >= 1) by {
            if p == 0 {
                assert(acc[0].address >= e.address);
            }
        }
        let acc1 = acc.drop_first();
        assert(forall|j: int| 0 <= j < acc1.len() ==> (#[trigger] acc1[j]) == acc[j + 1]);
        assert(sorted_addrs_c(acc1));
        lemma_insert_addr_c_at(acc1, e, p - 1);
        if p - 1 < acc1.len() && acc1[p - 1].address == e.address {
            assert(insert_addr_c(acc, e) =~= acc);
        } else {
            assert(seq![acc[0]] + acc1.insert(p - 1, e) =~= acc.insert(p, e));
        }
    }
}


/// Builds the strictly sorted address table, the first-encountered entry
/// winning for each address.
fn addr_table_c_exec(entries: &Vec<CompactLocation>) -> (r: Vec<CompactLocation>)
    ensures
        r@ == addr_table_c(entries@),
{
    let mut out: Vec<CompactLocation> = Vec::new();
    let mut n: usize = 0;
    proof {
        assert(entries@.take(0) =~= Seq::<CompactLocation>::empty());
    }
    while n < entries.len()
        invariant
            n <= entries@.len(),
            out@ == addr_table_c(entries@.take(n as int)),
        decreases entries@.len() - n,
    {
        let e = entries[n];
        proof {
            lemma_addr_table_c(entries@.take(n as int));
            assert(entries@.take(n + 1).drop_last() =~= entries@.take(n as int));
            assert(entries@.take(n + 1).last() == entries@[n as int]);
        }
        let mut idx: usize = 0;
        while idx < out.len() && out[idx].address < e.address
            invariant
                idx <= out@.len(),
                forall|j: int| 0 <= j < idx ==> (#[trigger] out@[j]).address < e.address,
            decreases out@.len() - idx,
        {
            idx = idx + 1;
        }
        proof {
            lemma_addr_table_c(entries@.take(n as int));
            lemma_insert_addr_c_at(out@, e, idx as int);
        }
        if idx < out.len() && out[idx].address == e.address {
        } else {
            out.insert(idx, e);
        }
        n = n + 1;
    }
    proof {
        assert(entries@.take(entries@.len() as int) =~= entries@);
    }
    out
}


/// The mathematical image of one surviving unit's output.
pub ghost struct GSourceUnit {
    pub name: Seq<char>,
    pub directory: Seq<char>,
    pub language: u16,
    pub files: Seq<GFile>,
}

/// The run a unit's rows emit.
pub open spec fn spec_unit_emits(offset: u64, u: GUnit) -> Option<Seq<GEmit>> {
    spec_emits(offset, lang_quirk(u.language), u.rows, FuncState::Start)
}

/// No unit's walk hits a fatal row.
pub open spec fn spec_units_ok(offset: u64, units: Seq<GUnit>) -> bool {
    forall|i: int| 0 <= i < units.len() ==> (#[trigger] spec_unit_emits(offset, units[i])) is Some
}

/// The grouped outputs of the units that resolved at least one file, in
/// unit order.
pub open spec fn spec_grouped(offset: u64, units: Seq<GUnit>) -> Seq<GSourceUnit>
    decreases units.len(),
{
    if units.len() == 0 {
        Seq::<GSourceUnit>::empty()
    } else {
        let p = spec_grouped(offset, units.drop_last());
        let u = units.last();
        let fs = spec_group(spec_unit_emits(offset, u)->0);
        if fs.len() == 0 {
            p
        } else {
            p.push(GSourceUnit { name: u.name, directory: u.directory, language: u.language, files: fs })
        }
    }
}

/// Every unit's emitted entries, in unit order then emit order.
pub open spec fn spec_all_emits(offset: u64, units: Seq<GUnit>) -> Seq<GEmit>
    decreases units.len(),
{
    if units.len() == 0 {
        Seq::<GEmit>::empty()
    } else {
        spec_all_emits(offset, units.drop_last()) + spec_unit_emits(offset, units.last())->0
    }
}

/// A resolved unit matches its mathematical image.
pub open spec fn unit_matches(su: SourceUnit, g: GSourceUnit) -> bool {
    su.name@ == g.name && su.directory@ == g.directory && files_match(su.files@, g.files, g.language)
}

/// The resolved units match their images, in order.
pub open spec fn units_match(sus: Seq<SourceUnit>, gs: Seq<GSourceUnit>) -> bool {
    sus.len() == gs.len() && forall|i: int|
        0 <= i < gs.len() ==> unit_matches(#[trigger] sus[i], gs[i])
}

/// What one whole resolution run produces: the grouped units and the raw
/// global location table in emit order.
pub struct ResolveOutput {
    pub units: Vec<SourceUnit>,
    pub locations: Vec<GlobalEntry>,
}

/// Resolves every unit: walks its rows, groups and post-processes its
/// files, keeps the units that resolved at least one file, and
/// accumulates the raw global location table. Fails exactly when some
/// unit's walk hits a row violating the decoder's contract.
pub fn resolve_units(offset: u64, units: &Vec<UnitData>) -> (r: Result<
    ResolveOutput,
    ResolverError,
>)
    ensures
        match r {
            Err(e) => e == ResolverError::DebugInfoDecodeFailure && !spec_units_ok(
                offset,
                units@.map_values(|u: UnitData| u@),
            ),
            Ok(out) => spec_units_ok(offset, units@.map_values(|u: UnitData| u@)) && units_match(
                out.units@,
                spec_grouped(offset, units@.map_values(|u: UnitData| u@)),
            ) && globals_match(
                out.locations@,
                spec_all_emits(offset, units@.map_values(|u: UnitData| u@)),
            ),
        },
{
    let ghost gunits = units@.map_values(|u: UnitData| u@);
    let mut res: Vec<SourceUnit> = Vec::new();
    let mut locations: Vec<GlobalEntry> = Vec::new();
    let mut n: usize = 0;
    proof {
        assert(gunits.take(0) =~= Seq::<GUnit>::empty());
    }
    while n < units.len()
        invariant
            n <= units@.len(),
            gunits == units@.map_values(|u: UnitData| u@),
            forall|i: int| 0 <= i < n ==> (#[trigger] spec_unit_emits(offset, gunits[i])) is Some,
            units_match(res@, spec_grouped(offset, gunits.take(n as int))),
            globals_match(locations@, spec_all_emits(offset, gunits.take(n as int))),
        decreases units@.len() - n,
    {
        proof {
            assert(gunits.take(n + 1).drop_last() =~= gunits.take(n as int));
            assert(gunits.take(n + 1).last() == gunits[n as int]);
            assert(gunits[n as int] == units@[n as int]@);
        }
        let unit = &units[n];
        match resolve_unit(offset, unit) {
            Err(e) => {
                proof {
                    assert(spec_unit_emits(offset, gunits[n as int]) is None);
                    assert(!spec_units_ok(offset, gunits));
                }
                return Err(e);
            },
            Ok(pair) => {
                let (su, mut glob) = pair;
                let ghost emits = spec_unit_emits(offset, gunits[n as int])->0;
                let ghost locs0 = locations@;
                let ghost globv = glob@;
                locations.append(&mut glob);
                proof {
                    assert(globals_match(locations@, spec_all_emits(offset, gunits.take(n + 1))))
                        by {
                        let all0 = spec_all_emits(offset, gunits.take(n as int));
                        let all1 = spec_all_emits(offset, gunits.take(n + 1));
                        assert(all1 == all0 + emits);
                        assert forall|i: int|
                            0 <= i < all1.len() implies (#[trigger] locations@[i]).file@
                            == all1[i].key && locations@[i].entry == all1[i].entry by {
                            if i < all0.len() {
                                assert(locations@[i] == locs0[i]);
                            } else {
                                assert(locations@[i] == globv[i - all0.len()]);
                                assert(all1[i] == emits[i - all0.len()]);
                            }
                        }
                    }
                }
                if su.files.len() > 0 {
                    res.push(su);
                    proof {
                        let gs1 = spec_grouped(offset, gunits.take(n + 1));
                        assert(gs1.len() == res@.len());
                        assert forall|i: int| 0 <= i < gs1.len() implies unit_matches(
                            #[trigger] res@[i],
                            gs1[i],
                        ) by {
                            if i < gs1.len() - 1 {
                                assert(res@[i] == res@.subrange(0, res@.len() - 1)[i]);
                            }
                        }
                    }
                } else {
                    proof {
                        assert(spec_group(emits).len() == 0);
                        assert(spec_grouped(offset, gunits.take(n + 1)) == spec_grouped(
                            offset,
                            gunits.take(n as int),
                        ));
                    }
                }
                n = n + 1;
            },
        }
    }
    proof {
        assert(gunits.take(units@.len() as int) =~= gunits);
    }
    Ok(ResolveOutput { units: res, locations })
}

/// Wraps resolved units as the success document: no error, all units.
pub fn assemble_grouped(units: Vec<SourceUnit>) -> (r: SourceResult)
    ensures
        r.units == Some(units),
        r.error is None,
{
    SourceResult { units: Some(units), error: None }
}

/// The first index of `names` equal to `k`, or -1 when none is.
pub open spec fn name_index(names: Seq<Seq<char>>, k: Seq<char>) -> int
    decreases names.len(),
{
    if names.len() == 0 {
        -1
    } else if names[0] == k {
        0
    } else if name_index(names.drop_first(), k) < 0 {
        -1
    } else {
        1 + name_index(names.drop_first(), k)
    }
}

/// `name_index` names the first occurrence, when one exists.
pub proof fn lemma_name_index(names: Seq<Seq<char>>, k: Seq<char>)
    ensures
        name_index(names, k) >= 0 ==> name_index(names, k) < names.len() && names[name_index(
            names,
            k,
        )] == k && (forall|j: int| 0 <= j < name_index(names, k) ==> (#[trigger] names[j]) != k),
        name_index(names, k) < 0 ==> forall|j: int|
            0 <= j < names.len() ==> (#[trigger] names[j]) != k,
    decreases names.len(),
{
    if names.len() > 0 && names[0] != k {
        lemma_name_index(names.drop_first(), k);
        assert(forall|j: int|
            1 <= j < names.len() ==> (#[trigger] names[j]) == names.drop_first()[j - 1]);
    }
}

/// The compact assembly fold over the raw global entries: the file list
/// in first-seen order and one raw row per entry carrying its file's
/// index.
pub open spec fn spec_compact_raw(locs: Seq<GlobalEntry>) -> (Seq<Seq<char>>, Seq<CompactLocation>)
    decreases locs.len(),
{
    if locs.len() == 0 {
        (Seq::<Seq<char>>::empty(), Seq::<CompactLocation>::empty())
    } else {
        let p = spec_compact_raw(locs.drop_last());
        let g = locs.last();
        let gi = name_index(p.0, g.file@);
        if gi >= 0 {
            (
                p.0,
                p.1.push(
                    CompactLocation {
                        address: g.entry.address,
                        file_index: gi as u64,
                        line: g.entry.pos.line as u64,
                        column: g.entry.pos.column as u64,
                    },
                ),
            )
        } else {
            (
                p.0.push(g.file@),
                p.1.push(
                    CompactLocation {
                        address: g.entry.address,
                        file_index: p.0.len() as u64,
                        line: g.entry.pos.line as u64,
                        column: g.entry.pos.column as u64,
                    },
                ),
            )
        }
    }
}

/// Assembles the compact document from the raw global entries: the file
/// list in first-seen order, and the location table globally ordered by
/// strictly increasing address, the first-encountered row winning for
/// each address.
pub fn assemble_compact(locs: &Vec<GlobalEntry>) -> (r: CompactResult)
    ensures
        r.files@.map_values(|nm: String| nm@) == spec_compact_raw(locs@).0,
        r.locations@ == addr_table_c(spec_compact_raw(locs@).1),
{
    let mut files: Vec<String> = Vec::new();
    let mut raw: Vec<CompactLocation> = Vec::new();
    let mut n: usize = 0;
    proof {
        assert(locs@.take(0) =~= Seq::<GlobalEntry>::empty());
        assert(files@.map_values(|nm: String| nm@) =~= Seq::<Seq<char>>::empty());
    }
    while n < locs.len()
        invariant
            n <= locs@.len(),
            files@.map_values(|nm: String| nm@) == spec_compact_raw(locs@.take(n as int)).0,
            raw@ == spec_compact_raw(locs@.take(n as int)).1,
        decreases locs@.len() - n,
    {
        let ghost names = files@.map_values(|nm: String| nm@);
        proof {
            assert(locs@.take(n + 1).drop_last() =~= locs@.take(n as int));
            assert(locs@.take(n + 1).last() == locs@[n as int]);
        }
        let g = &locs[n];
        let mut idx: usize = 0;
        let mut found = false;
        while idx < files.len() && !found
            invariant
                idx <= files@.len(),
                names == files@.map_values(|nm: String| nm@),
                found ==> idx < files@.len() && names[idx as int] == g.file@,
                forall|j: int| 0 <= j < idx ==> (#[trigger] names[j]) != g.file@,
                g == &locs@[n as int],
            decreases files@.len() - idx + (if found {
                0int
            } else {
                1int
            }),
        {
            if files[idx] == g.file {
                found = true;
            } else {
                idx = idx + 1;
            }
        }
        proof {
            lemma_name_index(names, g.file@);
            if found {
                assert(name_index(names, g.file@) == idx as int);
            } else {
                assert(name_index(names, g.file@) < 0) by {
                    if name_index(names, g.file@) >= 0 {
                        assert(names[name_index(names, g.file@)] != g.file@);
                    }
                }
            }
        }
        if found {
            raw.push(
                CompactLocation {
                    address: g.entry.address,
                    file_index: idx as u64,
                    line: g.entry.pos.line as u64,
                    column: g.entry.pos.column as u64,
                },
            );
        } else {
            let fi = files.len();
            files.push(g.file.clone());
            raw.push(
                CompactLocation {
                    address: g.entry.address,
                    file_index: fi as u64,
                    line: g.entry.pos.line as u64,
                    column: g.entry.pos.column as u64,
                },
            );
            proof {
                assert(files@.map_values(|nm: String| nm@) =~= names.push(g.file@));
            }
        }
        n = n + 1;
    }
    proof {
        assert(locs@.take(locs@.len() as int) =~= locs@);
    }
    let locations = addr_table_c_exec(&raw);
    CompactResult { files, locations }
}

/// Every raw compact row's file index names a file of the fold's list.
proof fn lemma_compact_raw_indices(locs: Seq<GlobalEntry>)
    ensures
        forall|i: int|
            0 <= i < spec_compact_raw(locs).1.len() ==> (#[trigger] spec_compact_raw(
                locs,
            ).1[i]).file_index < spec_compact_raw(locs).0.len(),
    decreases locs.len(),
{
    if locs.len() > 0 {
        lemma_compact_raw_indices(locs.drop_last());
        let p = spec_compact_raw(locs.drop_last());
        lemma_name_index(p.0, locs.last().file@);
    }
}

/// Every location of the compact table carries a file index below the
/// file list's length: a location can never reference a missing file.
pub proof fn lemma_compact_well_indexed(locs: Seq<GlobalEntry>)
    ensures
        forall|i: int|
            0 <= i < addr_table_c(spec_compact_raw(locs).1).len() ==> (#[trigger] addr_table_c(
                spec_compact_raw(locs).1,
            )[i]).file_index < spec_compact_raw(locs).0.len(),
{
    lemma_compact_raw_indices(locs);
    let raw = spec_compact_raw(locs).1;
    lemma_addr_table_c(raw);
    assert forall|i: int| 0 <= i < addr_table_c(raw).len() implies (#[trigger] addr_table_c(
        raw,
    )[i]).file_index < spec_compact_raw(locs).0.len() by {
        lemma_first_with_addr_c(raw, addr_table_c(raw)[i].address);
        assert(addr_table_c(raw)[i] == raw[first_with_addr_c(raw, addr_table_c(raw)[i].address)]);
    }
}

/// Every emitted position is zero-based: the line is the reported line
/// less one, and the column before the language correction is the
/// reported column less one, each non-negative and strictly below its
/// reported one-based counterpart.
pub proof fn lemma_zero_basing(line: u64, column: RowColumn, quirk: bool)
    ensures
        match spec_pos(line, column, quirk) {
            Some(p) => p.line < line && match column {
                RowColumn::Column(c) => 0 <= c - 1 < c && p.column == c - 1 + (if quirk {
                    1int
                } else {
                    0int
                }),
                RowColumn::LeftEdge => p.column == 0,
            },
            None => true,
        },
{
}

/// Per file, the surviving lines are strictly increasing by address, with
/// no duplicate address.
pub proof fn lemma_file_lines_sorted(entries: Seq<LocationEntry>)
    ensures
        sorted_addrs(spec_file_lines(entries)),
{
    lemma_addr_table(dedup_pos(entries));
}

/// Per file, no two surviving entries share a `(line, column)` pair.
pub proof fn lemma_file_lines_pos_distinct(entries: Seq<LocationEntry>)
    ensures
        forall|i: int, j: int|
            0 <= i < j < spec_file_lines(entries).len() ==> !same_pos(
                #[trigger] spec_file_lines(entries)[i],
                #[trigger] spec_file_lines(entries)[j],
            ),
{
    lemma_dedup_pos(entries);
    let d = dedup_pos(entries);
    lemma_addr_table(d);
    let t = addr_table(d);
    assert forall|i: int, j: int| 0 <= i < j < t.len() implies !same_pos(
        #[trigger] t[i],
        #[trigger] t[j],
    ) by {
        lemma_first_with_addr(d, t[i].address);
        lemma_first_with_addr(d, t[j].address);
        let fi = first_with_addr(d, t[i].address);
        let fj = first_with_addr(d, t[j].address);
        assert(t[i] == d[fi]);
        assert(t[j] == d[fj]);
        assert(t[i].address < t[j].address);
        assert(fi != fj);
        if same_pos(t[i], t[j]) {
            if fi < fj {
                assert(!same_pos(d[fi], d[fj]));
            } else {
                assert(!same_pos(d[fj], d[fi]));
            }
        }
    }
}

/// For any two raw rows claiming one module-absolute address, exactly one
/// location survives the global deduplication, and it is the
/// first-encountered row with that address.
pub proof fn lemma_global_first_wins(raw: Seq<CompactLocation>, i: int, j: int)
    requires
        0 <= i < j < raw.len(),
        raw[i].address == raw[j].address,
    ensures
        exists|m: int|
            0 <= m < addr_table_c(raw).len() && (#[trigger] addr_table_c(raw)[m]).address
                == raw[i].address,
        forall|m1: int, m2: int|
            0 <= m1 < addr_table_c(raw).len() && 0 <= m2 < addr_table_c(raw).len() && (
            #[trigger] addr_table_c(raw)[m1]).address == raw[i].address && (
            #[trigger] addr_table_c(raw)[m2]).address == raw[i].address ==> m1 == m2,
        forall|m: int|
            0 <= m < addr_table_c(raw).len() && (#[trigger] addr_table_c(raw)[m]).address
                == raw[i].address ==> addr_table_c(raw)[m] == raw[first_with_addr_c(
                raw,
                raw[i].address,
            )],
{
    let a = raw[i].address;
    let t = addr_table_c(raw);
    lemma_addr_table_c(raw);
    assert(has_addr_c(raw, a));
    assert(has_addr_c(t, a));
    let m0 = choose|m: int| 0 <= m < t.len() && (#[trigger] t[m]).address == a;
    assert(t[m0].address == a);
    assert forall|m1: int, m2: int|
        0 <= m1 < t.len() && 0 <= m2 < t.len() && (#[trigger] t[m1]).address == a && (
        #[trigger] t[m2]).address == a implies m1 == m2 by {
        if m1 < m2 {
            assert(t[m1].address < t[m2].address);
        }
        if m2 < m1 {
            assert(t[m2].address < t[m1].address);
        }
    }
}

/// A unit whose first line-program row reports address 0 contributes
/// nothing up to and including the next end-of-sequence row; the walk
/// then starts afresh on the remaining rows.
pub proof fn lemma_tombstone_sequence(offset: u64, quirk: bool, rows: Seq<GRow>, k: int)
    requires
        rows.len() > 0,
        rows[0].address == 0,
        0 <= k < rows.len(),
        rows[k].end_sequence,
        forall|j: int| 0 <= j < k ==> !(#[trigger] rows[j]).end_sequence,
    ensures
        spec_emits(offset, quirk, rows, FuncState::Start) == spec_emits(
            offset,
            quirk,
            rows.skip(k + 1),
            FuncState::Start,
        ),
{
    lemma_ignored_tail(offset, quirk, rows, k);
}

/// From the `Ignored` state, rows up to and including the first
/// end-of-sequence row are dropped and the walk resumes at `Start`.
proof fn lemma_ignored_tail(offset: u64, quirk: bool, rows: Seq<GRow>, k: int)
    requires
        0 <= k < rows.len(),
        rows[k].end_sequence,
        forall|j: int| 0 <= j < k ==> !(#[trigger] rows[j]).end_sequence,
    ensures
        spec_emits(offset, quirk, rows, FuncState::Ignored) == spec_emits(
            offset,
            quirk,
            rows.skip(k + 1),
            FuncState::Start,
        ),
        rows[0].address == 0 ==> spec_emits(offset, quirk, rows, FuncState::Start) == spec_emits(
            offset,
            quirk,
            rows.skip(k + 1),
            FuncState::Start,
        ),
    decreases k,
{
    if k == 0 {
        assert(rows.drop_first() =~= rows.skip(1));
    } else {
        assert(rows.drop_first() =~= rows.skip(1));
        let rows1 = rows.skip(1);
        assert(rows1[k - 1].end_sequence);
        assert forall|j: int| 0 <= j < k - 1 implies !(#[trigger] rows1[j]).end_sequence by {
            assert(rows1[j] == rows[j + 1]);
        }
        lemma_ignored_tail(offset, quirk, rows1, k - 1);
        assert(rows1.skip(k) =~= rows.skip(k + 1));
    }
}

} // verus!
