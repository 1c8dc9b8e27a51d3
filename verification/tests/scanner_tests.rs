use wasm_source_map::wasm::{parse_sections, scan_module, ResolverError, Section, SectionKind};

fn header() -> Vec<u8> {
    let mut m = vec![0u8, 0x61, 0x73, 0x6d];
    m.extend_from_slice(&[1, 0, 0, 0]);
    m
}

fn uleb(mut v: u64) -> Vec<u8> {
    let mut out = Vec::new();
    loop {
        let b = (v & 0x7f) as u8;
        v >>= 7;
        if v == 0 {
            out.push(b);
            return out;
        }
        out.push(b | 0x80);
    }
}

fn custom_section(name: &str, payload: &[u8]) -> Vec<u8> {
    let mut body = uleb(name.len() as u64);
    body.extend_from_slice(name.as_bytes());
    body.extend_from_slice(payload);
    let mut out = vec![0u8];
    out.extend_from_slice(&uleb(body.len() as u64));
    out.extend_from_slice(&body);
    out
}

fn standard_section(id: u8, payload: &[u8]) -> Vec<u8> {
    let mut out = vec![id];
    out.extend_from_slice(&uleb(payload.len() as u64));
    out.extend_from_slice(payload);
    out
}

#[test]
fn bad_magic_is_rejected() {
    let m = vec![1u8, 2, 3, 4, 1, 0, 0, 0];
    assert_eq!(parse_sections(&m).unwrap_err(), ResolverError::InvalidMagic);
}

#[test]
fn unsupported_version_is_reported_with_its_value() {
    let mut m = vec![0u8, 0x61, 0x73, 0x6d];
    m.extend_from_slice(&[2, 0, 0, 0]);
    assert_eq!(
        parse_sections(&m).unwrap_err(),
        ResolverError::UnsupportedVersion(2)
    );
}

#[test]
fn truncated_header_is_malformed() {
    let m = vec![0u8, 0x61, 0x73];
    assert_eq!(
        parse_sections(&m).unwrap_err(),
        ResolverError::MalformedEncoding
    );
    let m = vec![0u8, 0x61, 0x73, 0x6d, 1, 0];
    assert_eq!(
        parse_sections(&m).unwrap_err(),
        ResolverError::MalformedEncoding
    );
}

#[test]
fn empty_module_is_malformed() {
    let m: Vec<u8> = Vec::new();
    assert_eq!(
        parse_sections(&m).unwrap_err(),
        ResolverError::MalformedEncoding
    );
}

#[test]
fn oversized_leb128_is_malformed() {
    let mut m = header();
    // an id whose encoding sets bits beyond the 64th
    m.extend_from_slice(&[0xFF, 0xFF, 0xFF, 0xFF, 0xFF, 0xFF, 0xFF, 0xFF, 0xFF, 0x7F]);
    assert_eq!(
        parse_sections(&m).unwrap_err(),
        ResolverError::MalformedEncoding
    );
}

#[test]
fn truncated_section_payload_is_malformed() {
    let mut m = header();
    m.push(10);
    m.extend_from_slice(&uleb(100));
    m.push(0);
    assert_eq!(
        parse_sections(&m).unwrap_err(),
        ResolverError::MalformedEncoding
    );
}

#[test]
fn sections_are_framed_with_payload_offsets() {
    let mut m = header();
    m.extend_from_slice(&standard_section(1, &[9, 9]));
    m.extend_from_slice(&custom_section("hello", &[7, 7, 7]));
    let secs: Vec<Section> = parse_sections(&m).unwrap();
    assert_eq!(secs.len(), 2);
    match &secs[0].kind {
        SectionKind::Standard { id } => assert_eq!(*id, 1),
        _ => panic!("expected a standard section"),
    }
    assert_eq!(secs[0].payload_offset, 10);
    assert_eq!(secs[0].payload, vec![9, 9]);
    match &secs[1].kind {
        SectionKind::Custom { name } => assert_eq!(name, "hello"),
        _ => panic!("expected a custom section"),
    }
    assert_eq!(secs[1].payload, vec![7, 7, 7]);
}

#[test]
fn multi_byte_lengths_decode() {
    let payload = vec![3u8; 300];
    let mut m = header();
    m.extend_from_slice(&standard_section(10, &payload));
    let secs = parse_sections(&m).unwrap();
    assert_eq!(secs.len(), 1);
    assert_eq!(secs[0].payload.len(), 300);
    // id 10 (1 byte) + length 300 (2 bytes)
    assert_eq!(secs[0].payload_offset, 11);
}

#[test]
fn module_without_code_section_is_missing_code_section() {
    let mut m = header();
    m.extend_from_slice(&custom_section(".debug_info", &[1, 2, 3]));
    m.extend_from_slice(&standard_section(1, &[0]));
    assert_eq!(
        scan_module(&m).unwrap_err(),
        ResolverError::MissingCodeSection
    );
}

#[test]
fn debug_sections_are_collected_and_code_offset_found() {
    let mut m = header();
    m.extend_from_slice(&custom_section(".debug_info", &[1, 2, 3]));
    m.extend_from_slice(&custom_section("name", &[4]));
    m.extend_from_slice(&standard_section(10, &[0xAB, 0xCD]));
    m.extend_from_slice(&custom_section(".debug_line", &[5, 6]));
    let out = scan_module(&m).unwrap();
    assert_eq!(out.debug_sections.len(), 2);
    assert_eq!(out.debug_sections[0].0, ".debug_info");
    assert_eq!(out.debug_sections[0].1, vec![1, 2, 3]);
    assert_eq!(out.debug_sections[1].0, ".debug_line");
    assert_eq!(out.debug_sections[1].1, vec![5, 6]);
    let off = out.code_section_offset as usize;
    assert_eq!(&m[off..off + 2], &[0xAB, 0xCD]);
}

#[test]
fn repeated_debug_name_last_writer_wins() {
    let mut m = header();
    m.extend_from_slice(&custom_section(".debug_info", &[1]));
    m.extend_from_slice(&custom_section(".debug_info", &[2]));
    m.extend_from_slice(&standard_section(10, &[0]));
    let out = scan_module(&m).unwrap();
    assert_eq!(out.debug_sections.len(), 1);
    assert_eq!(out.debug_sections[0].1, vec![2]);
}
