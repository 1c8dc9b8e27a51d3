//! Frames a binary WebAssembly module into its sections.
//!
//! The scanner checks the magic bytes and the format version, then walks the
//! buffer section by section: an unsigned variable-length id, a payload
//! length, and the payload itself. Section id 0 marks a custom section whose
//! payload begins with a length-prefixed name; any other id is a standard
//! section. The scanner also computes the absolute byte offset of each
//! payload, which for the code section (id 10) is the bias later added to
//! every debug address.

use vstd::prelude::*;
use vstd::utf8::decode_utf8;
use vstd::utf8::valid_utf8;

verus! {

/// A failure of the whole run.
#[derive(Debug, Clone, Copy, PartialEq, Eq, Structural)]
pub enum ResolverError {
    /// The first four bytes are not the WebAssembly magic.
    InvalidMagic,
    /// The version field holds the given value instead of 1.
    UnsupportedVersion(u32),
    /// No standard section with id 10 exists.
    MissingCodeSection,
    /// A bad variable-length integer, a truncated section, or bad name
    /// bytes.
    MalformedEncoding,
    /// The externally decoded debug rows violate the decoder's contract.
    DebugInfoDecodeFailure,
}

/// The place values a LEB128 decoder steps through: the powers of 128 that
/// fit an unsigned 64-bit integer.
pub open spec fn is_uleb_mult(mult: nat) -> bool {
    ||| mult == 0x1
    ||| mult == 0x80
    ||| mult == 0x4000
    ||| mult == 0x200000
    ||| mult == 0x10000000
    ||| mult == 0x800000000
    ||| mult == 0x40000000000
    ||| mult == 0x2000000000000
    ||| mult == 0x100000000000000
    ||| mult == 0x8000000000000000
}

/// One step of unsigned LEB128 decoding at index `i`: `mult` is the place
/// value of the next seven-bit group and `acc` the value read so far. The
/// result is the decoded value with the index just after the encoding, or
/// nothing when the encoding is truncated or overflows 64 bits.
pub open spec fn uleb_decode(s: Seq<u8>, i: int, mult: nat, acc: nat) -> Option<(nat, int)>
    decreases s.len() - i,
{
    if i < 0 || i >= s.len() {
        None
    } else {
        let b = s[i];
        if mult == 0x8000000000000000 && b > 1 {
            None
        } else if b < 128 {
            Some(((acc + (b as nat) * mult) as nat, i + 1))
        } else {
            uleb_decode(s, i + 1, (mult * 128) as nat, (acc + ((b - 128) as nat) * mult) as nat)
        }
    }
}

/// The unsigned LEB128 integer at `i`, with the index just after it.
pub open spec fn spec_uleb(s: Seq<u8>, i: int) -> Option<(nat, int)> {
    uleb_decode(s, i, 1, 0)
}

/// A decoded LEB128 value fits in 64 bits and its encoding ends inside the
/// buffer, after at least one byte.
pub proof fn lemma_uleb_fits(s: Seq<u8>, i: int, mult: nat, acc: nat)
    requires
        is_uleb_mult(mult),
        acc < mult,
    ensures
        match uleb_decode(s, i, mult, acc) {
            Some(ve) => ve.0 <= u64::MAX && i < ve.1 <= s.len(),
            None => true,
        },
    decreases s.len() - i,
{
    if 0 <= i < s.len() {
        let b = s[i];
        if mult == 0x8000000000000000 && b > 1 {
        } else if b < 128 {
        } else {
            lemma_uleb_fits(s, i + 1, (mult * 128) as nat, (acc + ((b - 128) as nat) * mult) as nat);
        }
    }
}

/// Reads the unsigned LEB128 integer at `start`.
fn read_uleb(s: &Vec<u8>, start: usize) -> (r: Result<(u64, usize), ResolverError>)
    ensures
        match spec_uleb(s@, start as int) {
            Some(ve) => (r matches Ok(p) && p.0 as nat == ve.0 && p.1 as int == ve.1),
            None => r matches Err(e) && e == ResolverError::MalformedEncoding,
        },
{
    let mut i: usize = start;
    let mut mult: u64 = 1;
    let mut acc: u64 = 0;
    loop
        invariant
            start <= i,
            is_uleb_mult(mult as nat),
            (acc as nat) < (mult as nat),
            spec_uleb(s@, start as int) == uleb_decode(s@, i as int, mult as nat, acc as nat),
        decreases s@.len() - i,
    {
        proof {
            lemma_uleb_fits(s@, i as int, mult as nat, acc as nat);
        }
        if i >= s.len() {
            return Err(ResolverError::MalformedEncoding);
        }
        let b = s[i];
        if mult == 0x8000000000000000u64 && b > 1 {
            return Err(ResolverError::MalformedEncoding);
        }
        if b < 128 {
            return Ok((acc + (b as u64) * mult, i + 1));
        }
        acc = acc + ((b - 128) as u64) * mult;
        mult = mult * 128;
        i = i + 1;
    }
}

/// How a section is identified: by a name (custom) or by a numeric id.
#[derive(Debug)]
pub enum SectionKind {
    Custom { name: String },
    Standard { id: u8 },
}

/// One framed section. For a custom section the payload and its offset
/// start after the embedded name; for a standard section they cover the
/// whole payload following the length field.
#[derive(Debug)]
pub struct Section {
    pub kind: SectionKind,
    pub payload_offset: usize,
    pub payload: Vec<u8>,
}

/// The mathematical image of a section's kind.
pub ghost enum GSectionKind {
    Custom { name: Seq<char> },
    Standard { id: u8 },
}

/// The mathematical image of a framed section.
pub ghost struct GSection {
    pub kind: GSectionKind,
    pub payload_offset: int,
    pub payload: Seq<u8>,
}

impl View for Section {
    type V = GSection;

    open spec fn view(&self) -> GSection {
        GSection {
            kind: match self.kind {
                SectionKind::Custom { name } => GSectionKind::Custom { name: name@ },
                SectionKind::Standard { id } => GSectionKind::Standard { id },
            },
            payload_offset: self.payload_offset as int,
            payload: self.payload@,
        }
    }
}

/// The name embedded at the front of a custom section's payload: a LEB128
/// length followed by that many bytes of UTF-8, whose end index is returned
/// with the decoded name.
pub open spec fn spec_custom_name(pay: Seq<u8>) -> Option<(Seq<char>, int)> {
    match spec_uleb(pay, 0) {
        None => None,
        Some(ve) => {
            let nl = ve.0;
            let m = ve.1;
            if m + nl > pay.len() {
                None
            } else if !valid_utf8(pay.subrange(m, m + nl)) {
                None
            } else {
                Some((decode_utf8(pay.subrange(m, m + nl)), m + nl))
            }
        },
    }
}

/// The sections framed from index `i` to the end of the buffer, or nothing
/// when a length, an id or a name is malformed or truncated.
pub open spec fn spec_sections(s: Seq<u8>, i: int) -> Option<Seq<GSection>>
    decreases s.len() - i,
    via spec_sections_dec
{
    if i > s.len() {
        None
    } else if i == s.len() {
        Some(Seq::<GSection>::empty())
    } else {
        match spec_uleb(s, i) {
            None => None,
            Some(idve) => {
                let id = idve.0;
                let j = idve.1;
                if id > 255 {
                    None
                } else {
                    match spec_uleb(s, j) {
                        None => None,
                        Some(plve) => {
                            let plen = plve.0;
                            let k = plve.1;
                            if k + plen > s.len() {
                                None
                            } else {
                                let pay = s.subrange(k, k + plen);
                                let rest = spec_sections(s, k + plen);
                                if id == 0 {
                                    match spec_custom_name(pay) {
                                        None => None,
                                        Some(nm) => match rest {
                                            None => None,
                                            Some(r) => Some(
                                                seq![
                                                    GSection {
                                                        kind: GSectionKind::Custom { name: nm.0 },
                                                        payload_offset: k + nm.1,
                                                        payload: pay.subrange(
                                                            nm.1,
                                                            pay.len() as int,
                                                        ),
                                                    },
                                                ] + r,
                                            ),
                                        },
                                    }
                                } else {
                                    match rest {
                                        None => None,
                                        Some(r) => Some(
                                            seq![
                                                GSection {
                                                    kind: GSectionKind::Standard { id: id as u8 },
                                                    payload_offset: k,
                                                    payload: pay,
                                                },
                                            ] + r,
                                        ),
                                    }
                                }
                            }
                        },
                    }
                }
            },
        }
    }
}

#[via_fn]
proof fn spec_sections_dec(s: Seq<u8>, i: int) {
    lemma_uleb_fits(s, i, 1, 0);
    match spec_uleb(s, i) {
        None => {},
        Some(idve) => {
            lemma_uleb_fits(s, idve.1, 1, 0);
        },
    }
}

/// The little-endian 32-bit version field at bytes 4 to 7.
pub open spec fn spec_version(s: Seq<u8>) -> int {
    s[4] + s[5] * 0x100 + s[6] * 0x10000 + s[7] * 0x1000000
}

/// The magic bytes opening every WebAssembly module.
pub open spec fn wasm_magic() -> Seq<u8> {
    seq![0u8, 0x61u8, 0x73u8, 0x6du8]
}

/// The outcome of scanning a whole module buffer: its framed sections, or
/// the first fatal condition.
pub open spec fn spec_scan(s: Seq<u8>) -> Result<Seq<GSection>, ResolverError> {
    if s.len() < 4 {
        Err(ResolverError::MalformedEncoding)
    } else if s.subrange(0, 4) != wasm_magic() {
        Err(ResolverError::InvalidMagic)
    } else if s.len() < 8 {
        Err(ResolverError::MalformedEncoding)
    } else if spec_version(s) != 1 {
        Err(ResolverError::UnsupportedVersion(spec_version(s) as u32))
    } else {
        match spec_sections(s, 8) {
            None => Err(ResolverError::MalformedEncoding),
            Some(secs) => Ok(secs),
        }
    }
}

/// Copies the bytes of `s` from `from` (inclusive) to `to` (exclusive).
fn copy_range(s: &Vec<u8>, from: usize, to: usize) -> (r: Vec<u8>)
    requires
        from <= to <= s@.len(),
    ensures
        r@ == s@.subrange(from as int, to as int),
{
    let mut v: Vec<u8> = Vec::new();
    let mut i: usize = from;
    proof {
        assert(v@ =~= s@.subrange(from as int, from as int));
    }
    while i < to
        invariant
            from <= i <= to <= s@.len(),
            v@ == s@.subrange(from as int, i as int),
        decreases to - i,
    {
        v.push(s[i]);
        proof {
            assert(v@ =~= s@.subrange(from as int, i + 1));
        }
        i = i + 1;
    }
    v
}

/// Relies on String::from_utf8: succeeds exactly on valid UTF-8 and decodes
/// it.
#[verifier::external_body]
fn bytes_to_string(b: Vec<u8>) -> (r: Option<String>)
    ensures
        match r {
            Some(name) => valid_utf8(b@) && name@ == decode_utf8(b@),
            None => !valid_utf8(b@),
        },
{
    match String::from_utf8(b) {
        Ok(name) => Some(name),
        Err(_) => None,
    }
}

/// Ties the section list at index 8 to the scan of the whole buffer, for
/// use inside loops.
pub open spec fn scan_link(s: Seq<u8>) -> bool {
    match spec_sections(s, 8) {
        None => spec_scan(s) == Err::<Seq<GSection>, ResolverError>(
            ResolverError::MalformedEncoding,
        ),
        Some(secs) => spec_scan(s) == Ok::<Seq<GSection>, ResolverError>(secs),
    }
}

/// Frames the whole module buffer into sections, checking the magic bytes
/// and the version first.
pub fn parse_sections(module: &Vec<u8>) -> (r: Result<Vec<Section>, ResolverError>)
    ensures
        match spec_scan(module@) {
            Ok(gsecs) => (r matches Ok(v) && v@.map_values(|sec: Section| sec@) == gsecs),
            Err(e) => (r matches Err(e2) && e2 == e),
        },
{
    if module.len() < 4 {
        return Err(ResolverError::MalformedEncoding);
    }
    if module[0] != 0 || module[1] != 0x61 || module[2] != 0x73 || module[3] != 0x6d {
        proof {
            assert(module@.subrange(0, 4) != wasm_magic());
        }
        return Err(ResolverError::InvalidMagic);
    }
    proof {
        assert(module@.subrange(0, 4) =~= wasm_magic());
    }
    if module.len() < 8 {
        return Err(ResolverError::MalformedEncoding);
    }
    let ver: u32 = module[4] as u32 + module[5] as u32 * 0x100 + module[6] as u32 * 0x10000
        + module[7] as u32 * 0x1000000;
    if ver != 1 {
        return Err(ResolverError::UnsupportedVersion(ver));
    }
    let mut out: Vec<Section> = Vec::new();
    let mut i: usize = 8;
    proof {
        assert(out@.map_values(|sec: Section| sec@) =~= Seq::<GSection>::empty());
        if spec_sections(module@, 8) is Some {
            assert(spec_sections(module@, 8) == Some(
                out@.map_values(|sec: Section| sec@) + spec_sections(module@, 8)->0,
            ));
        }
    }
    while i < module.len()
        invariant
            8 <= i <= module@.len(),
            scan_link(module@),
            match spec_sections(module@, i as int) {
                None => spec_sections(module@, 8) is None,
                Some(rest) => spec_sections(module@, 8) == Some(
                    out@.map_values(|sec: Section| sec@) + rest,
                ),
            },
        decreases module@.len() - i,
    {
        proof {
            lemma_uleb_fits(module@, i as int, 1, 0);
        }
        let idv: u64;
        let j: usize;
        match read_uleb(module, i) {
            Err(_) => {
                return Err(ResolverError::MalformedEncoding);
            },
            Ok(p) => {
                idv = p.0;
                j = p.1;
            },
        }
        if idv > 255 {
            return Err(ResolverError::MalformedEncoding);
        }
        proof {
            lemma_uleb_fits(module@, j as int, 1, 0);
        }
        let plen: u64;
        let k: usize;
        match read_uleb(module, j) {
            Err(_) => {
                return Err(ResolverError::MalformedEncoding);
            },
            Ok(p) => {
                plen = p.0;
                k = p.1;
            },
        }
        if plen > (module.len() - k) as u64 {
            return Err(ResolverError::MalformedEncoding);
        }
        let plen_us: usize = plen as usize;
        let end: usize = k + plen_us;
        let pay = copy_range(module, k, end);
        let ghost gpay = module@.subrange(k as int, k as int + plen as int);
        proof {
            assert(pay@ == gpay);
        }
        if idv == 0 {
            proof {
                lemma_uleb_fits(pay@, 0, 1, 0);
            }
            let nl: u64;
            let m: usize;
            match read_uleb(&pay, 0) {
                Err(_) => {
                    return Err(ResolverError::MalformedEncoding);
                },
                Ok(p) => {
                    nl = p.0;
                    m = p.1;
                },
            }
            if nl > (pay.len() - m) as u64 {
                return Err(ResolverError::MalformedEncoding);
            }
            let name_end: usize = m + nl as usize;
            let name_bytes = copy_range(&pay, m, name_end);
            match bytes_to_string(name_bytes) {
                None => {
                    return Err(ResolverError::MalformedEncoding);
                },
                Some(name) => {
                    let payload = copy_range(&pay, name_end, pay.len());
                    let sec = Section {
                        kind: SectionKind::Custom { name },
                        payload_offset: k + name_end,
                        payload,
                    };
                    let ghost prev = out@;
                    out.push(sec);
                    proof {
                        let s = module@;
                        let gi = i as int;
                        match spec_sections(s, end as int) {
                            None => {
                                assert(spec_sections(s, gi) is None);
                            },
                            Some(rest) => {
                                assert(spec_sections(s, gi) == Some(seq![sec@] + rest));
                                assert(prev.map_values(|s2: Section| s2@) + (seq![sec@] + rest)
                                    =~= out@.map_values(|s2: Section| s2@) + rest);
                            },
                        }
                    }
                    i = end;
                },
            }
        } else {
            let sec = Section {
                kind: SectionKind::Standard { id: idv as u8 },
                payload_offset: k,
                payload: pay,
            };
            let ghost prev = out@;
            out.push(sec);
            proof {
                let s = module@;
                let gi = i as int;
                match spec_sections(s, end as int) {
                    None => {
                        assert(spec_sections(s, gi) is None);
                    },
                    Some(rest) => {
                        assert(spec_sections(s, gi) == Some(seq![sec@] + rest));
                        assert(prev.map_values(|s2: Section| s2@) + (seq![sec@] + rest)
                            =~= out@.map_values(|s2: Section| s2@) + rest);
                    },
                }
            }
            i = end;
        }
    }
    proof {
        assert(spec_sections(module@, i as int) == Some(Seq::<GSection>::empty()));
        assert(out@.map_values(|sec: Section| sec@) + Seq::<GSection>::empty() =~= out@.map_values(
            |sec: Section| sec@,
        ));
    }
    Ok(out)
}

/// The reserved prefix opening every DWARF debug section name.
pub open spec fn debug_prefix() -> Seq<char> {
    seq!['.', 'd', 'e', 'b', 'u', 'g', '_']
}

/// Whether a custom section name is a reserved debug section name.
pub open spec fn is_debug_name(n: Seq<char>) -> bool {
    n.len() >= 7 && n.subrange(0, 7) == debug_prefix()
}

/// The first index of `t` holding key `k`, or -1 when no entry does.
pub open spec fn key_index(t: Seq<(Seq<char>, Seq<u8>)>, k: Seq<char>) -> int
    decreases t.len(),
{
    if t.len() == 0 {
        -1
    } else if t[0].0 == k {
        0
    } else if key_index(t.drop_first(), k) < 0 {
        -1
    } else {
        1 + key_index(t.drop_first(), k)
    }
}

/// `key_index` names the first entry holding the key, when one exists.
pub proof fn lemma_key_index(t: Seq<(Seq<char>, Seq<u8>)>, k: Seq<char>)
    ensures
        key_index(t, k) >= 0 ==> key_index(t, k) < t.len() && t[key_index(t, k)].0 == k && (forall|
            j: int,
        |
            0 <= j < key_index(t, k) ==> (#[trigger] t[j]).0 != k),
        key_index(t, k) < 0 ==> forall|j: int| 0 <= j < t.len() ==> (#[trigger] t[j]).0 != k,
    decreases t.len(),
{
    if t.len() > 0 && t[0].0 != k {
        lemma_key_index(t.drop_first(), k);
        assert(forall|j: int|
            1 <= j < t.len() ==> (#[trigger] t[j]) == t.drop_first()[j - 1]);
    }
}

/// Stores `(k, v)` in the table: replaces the first entry holding `k`, or
/// appends a new entry.
pub open spec fn upsert(t: Seq<(Seq<char>, Seq<u8>)>, k: Seq<char>, v: Seq<u8>) -> Seq<
    (Seq<char>, Seq<u8>),
> {
    if key_index(t, k) >= 0 {
        t.update(key_index(t, k), (k, v))
    } else {
        t.push((k, v))
    }
}

/// The name-to-bytes table of the debug sections among `secs`, keys in
/// first-seen order, the last writer winning on a repeated name.
pub open spec fn spec_debug_table(secs: Seq<GSection>) -> Seq<(Seq<char>, Seq<u8>)>
    decreases secs.len(),
{
    if secs.len() == 0 {
        Seq::<(Seq<char>, Seq<u8>)>::empty()
    } else {
        let t = spec_debug_table(secs.drop_last());
        match secs.last().kind {
            GSectionKind::Custom { name } => {
                if is_debug_name(name) {
                    upsert(t, name, secs.last().payload)
                } else {
                    t
                }
            },
            GSectionKind::Standard { id: _ } => t,
        }
    }
}

/// The payload offset of the last standard section with id 10 among
/// `secs`, when one exists.
pub open spec fn spec_code_offset(secs: Seq<GSection>) -> Option<int>
    decreases secs.len(),
{
    if secs.len() == 0 {
        None
    } else {
        match secs.last().kind {
            GSectionKind::Standard { id } => {
                if id == 10 {
                    Some(secs.last().payload_offset)
                } else {
                    spec_code_offset(secs.drop_last())
                }
            },
            GSectionKind::Custom { name: _ } => spec_code_offset(secs.drop_last()),
        }
    }
}

/// The mathematical image of a name-to-bytes table.
pub open spec fn table_view(t: Seq<(String, Vec<u8>)>) -> Seq<(Seq<char>, Seq<u8>)> {
    t.map_values(|p: (String, Vec<u8>)| (p.0@, p.1@))
}

/// Whether the section name opens with the reserved debug prefix.
fn is_debug_name_exec(s: &String) -> (r: bool)
    ensures
        r == is_debug_name(s@),
{
    let a = s.as_str();
    let n = a.unicode_len();
    if n < 7 {
        return false;
    }
    let r = a.get_char(0) == '.' && a.get_char(1) == 'd' && a.get_char(2) == 'e' && a.get_char(3)
        == 'b' && a.get_char(4) == 'u' && a.get_char(5) == 'g' && a.get_char(6) == '_';
    proof {
        if r {
            assert(s@.subrange(0, 7) =~= debug_prefix());
        } else {
            if is_debug_name(s@) {
                assert(s@[0] == debug_prefix()[0]);
                assert(s@[1] == debug_prefix()[1]);
                assert(s@[2] == debug_prefix()[2]);
                assert(s@[3] == debug_prefix()[3]);
                assert(s@[4] == debug_prefix()[4]);
                assert(s@[5] == debug_prefix()[5]);
                assert(s@[6] == debug_prefix()[6]);
            }
        }
    }
    r
}

/// Stores `(k, v)` in the table, replacing the first entry with that key or
/// appending a new one.
fn upsert_exec(table: &mut Vec<(String, Vec<u8>)>, k: String, v: Vec<u8>)
    ensures
        table_view(final(table)@) == upsert(table_view(old(table)@), k@, v@),
{
    let ghost t0 = table_view(old(table)@);
    proof {
        lemma_key_index(t0, k@);
    }
    let mut idx: usize = 0;
    while idx < table.len()
        invariant
            idx <= table@.len(),
            *table == *old(table),
            t0 == table_view(old(table)@),
            forall|j: int| 0 <= j < idx ==> (#[trigger] t0[j]).0 != k@,
        decreases table@.len() - idx,
    {
        if table[idx].0 == k {
            proof {
                lemma_key_index(t0, k@);
                assert(t0[idx as int].0 == k@);
                assert(key_index(t0, k@) == idx as int);
            }
            let _ = table.remove(idx);
            table.insert(idx, (k, v));
            proof {
                assert(table_view(table@) =~= t0.update(idx as int, (k@, v@)));
            }
            return;
        }
        idx = idx + 1;
    }
    proof {
        lemma_key_index(t0, k@);
        assert(key_index(t0, k@) < 0);
    }
    table.push((k, v));
    proof {
        assert(table_view(table@) =~= t0.push((k@, v@)));
    }
}

/// What the scanner hands on: the debug-section table and the absolute
/// byte offset of the code section's payload.
#[derive(Debug)]
pub struct ScanOutput {
    pub debug_sections: Vec<(String, Vec<u8>)>,
    pub code_section_offset: u64,
}

/// Scans a whole module: frames its sections, collects the debug sections
/// by name, and finds the code section's payload offset. A module whose
/// magic and version are valid but which holds no code section fails with
/// exactly `MissingCodeSection`.
pub fn scan_module(module: &Vec<u8>) -> (r: Result<ScanOutput, ResolverError>)
    ensures
        match spec_scan(module@) {
            Err(e) => (r matches Err(e2) && e2 == e),
            Ok(gsecs) => match spec_code_offset(gsecs) {
                None => (r matches Err(e) && e == ResolverError::MissingCodeSection),
                Some(off) => (r matches Ok(out) && out.code_section_offset as int == off
                    && table_view(out.debug_sections@) == spec_debug_table(gsecs)),
            },
        },
{
    let secs = match parse_sections(module) {
        Err(e) => {
            return Err(e);
        },
        Ok(v) => v,
    };
    let ghost gsecs = secs@.map_values(|sec: Section| sec@);
    let mut table: Vec<(String, Vec<u8>)> = Vec::new();
    let mut code_off: Option<u64> = None;
    let mut t: usize = 0;
    proof {
        assert(gsecs.take(0) =~= Seq::<GSection>::empty());
        assert(table_view(table@) =~= Seq::<(Seq<char>, Seq<u8>)>::empty());
    }
    while t < secs.len()
        invariant
            t <= secs@.len(),
            gsecs == secs@.map_values(|sec: Section| sec@),
            table_view(table@) == spec_debug_table(gsecs.take(t as int)),
            match spec_code_offset(gsecs.take(t as int)) {
                None => code_off is None,
                Some(off) => (code_off matches Some(c) && c as int == off),
            },
        decreases secs@.len() - t,
    {
        proof {
            assert(gsecs.take(t + 1).drop_last() =~= gsecs.take(t as int));
            assert(gsecs.take(t + 1).last() == secs@[t as int]@);
        }
        let sec = &secs[t];
        match &sec.kind {
            SectionKind::Custom { name } => {
                if is_debug_name_exec(name) {
                    let payload = copy_range(&sec.payload, 0, sec.payload.len());
                    proof {
                        assert(payload@ =~= sec.payload@);
                    }
                    upsert_exec(&mut table, name.clone(), payload);
                }
            },
            SectionKind::Standard { id } => {
                if *id == 10 {
                    code_off = Some(sec.payload_offset as u64);
                }
            },
        }
        t = t + 1;
    }
    proof {
        assert(gsecs.take(secs@.len() as int) =~= gsecs);
    }
    match code_off {
        None => Err(ResolverError::MissingCodeSection),
        Some(c) => Ok(ScanOutput { debug_sections: table, code_section_offset: c }),
    }
}

} // verus!
