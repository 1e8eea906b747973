use trace_core::cache::{
    cache_name, cache_name_ext, delete_cache, is_cache_file, load_cached, load_crypto_cache,
    load_gumtrace_extra, load_lidx_cache, load_phase2_cache, load_scan_cache, load_string_cache,
    magic, magic_v6, save_bincode_raw, save_crypto_cache, save_gumtrace_extra, save_sections_raw,
    save_string_cache, validate_header,
};
use trace_core::engine::site::{site_or_runtime, stable_site};
use trace_core::error::TraceError;
use trace_core::flat::archives::LineIndexArchive;
use trace_core::helper::{
    check_limit, check_pattern, helper_options, parse_fd_arg, parse_hex_addr,
    validate_inherited_fds, FdArgError, HelperRequest, MAX_CONTROL_BYTES,
};
use trace_core::staging::{
    is_process_number, parse_staging_name, staging_is_stale, staging_name, STAGING_MAX_AGE,
};

#[test]
fn p2_magic_tracks_activation_tree_layout() {
    assert_eq!(&magic_v6(), b"TCACHE06");
}

#[test]
fn payload_magic_is_another() {
    assert_eq!(&magic(), b"TCACHE03");
}

#[test]
fn stable_site_rejects_malformed_lines() {
    assert_eq!(stable_site("[mod] 0x1!yy nop"), None);
    assert_eq!(stable_site("[lib.so] 0x1!"), None);
    assert_eq!(
        stable_site("[libmetasec_ov.so] 0x7522e85ce0!0x82ce0 sub x0"),
        Some("libmetasec_ov.so+0x82ce0".to_string())
    );
    assert_eq!(
        stable_site("[07:17:13 488][libtiny.so 0x174250] [fd7bbaa9] 0x40174250: \"stp\""),
        Some("libtiny.so+0x174250".to_string())
    );
    assert_eq!(
        stable_site("[00:00:00 000][e00300b9] 0x40174250: \"add\""),
        None
    );
}

#[test]
fn sites_without_module_or_offset_are_not_stable() {
    assert_eq!(stable_site(""), None);
    assert_eq!(stable_site("[] 0x1!0x2"), None);
    assert_eq!(stable_site("] 0x1!0x2"), None);
    assert_eq!(stable_site("[m] 0x1!0xzz"), None);
    assert_eq!(stable_site("[m] 0x1!0x2"), Some("m+0x2".to_string()));
    assert_eq!(stable_site("[a 0x12] [b"), Some("a+0x12".to_string()));
    assert_eq!(stable_site("[a 0x1g] [b"), None);
    assert_eq!(stable_site("[ 0x12] [b"), None);
    assert_eq!(stable_site("[a b 0x12] ["), Some("a b+0x12".to_string()));
    assert_eq!(stable_site("[\u{6a21}] 0x1!0xAf,"), Some("\u{6a21}+0xAf".to_string()));
}

#[test]
fn a_place_without_a_site_is_marked_as_runtime() {
    assert_eq!(site_or_runtime(None, 0x40174250), "runtime:0x40174250");
    assert_eq!(site_or_runtime(Some(b"nothing"), 0), "runtime:0x0");
    assert_eq!(site_or_runtime(Some(&[0xFF, 0xFE]), 0xABC), "runtime:0xabc");
    assert_eq!(site_or_runtime(Some(b"[m] 0x1!0x2 nop"), 1), "m+0x2");
}

#[test]
fn parse_rejects_plain_cache_files() {
    assert!(parse_staging_name("target.cache").is_none());
    assert!(parse_staging_name(".target.cache").is_none());
    assert_eq!(
        parse_staging_name(".target.cache.tmp.12.abcd"),
        Some(("target.cache", 12))
    );
}

#[test]
fn staging_names_are_recognised() {
    let name = staging_name("a.cache", 4294967295, "0f-1");
    assert_eq!(name, ".a.cache.tmp.4294967295.0f-1");
    assert_eq!(parse_staging_name(&name), Some(("a.cache", 4294967295)));
    assert_eq!(parse_staging_name(".a.tmp.4294967296.x"), None);
    assert_eq!(parse_staging_name(".a.tmp..x"), None);
    assert_eq!(parse_staging_name(".a.tmp.1x.y"), None);
    assert_eq!(parse_staging_name(".a.tmp.+7.y"), Some(("a", 7)));
    assert_eq!(parse_staging_name(".a.tmp.7"), Some(("a", 7)));
    assert_eq!(parse_staging_name(".a.tmp.1.tmp.2.y"), Some(("a.tmp.1", 2)));
    assert_eq!(parse_staging_name(".\u{e9}.tmp.3.y"), Some(("\u{e9}", 3)));
    assert_eq!(parse_staging_name(""), None);
}

#[test]
fn only_abandoned_staging_is_stale() {
    let old = Some((STAGING_MAX_AGE, 1));
    let young = Some((STAGING_MAX_AGE, 0));
    assert!(staging_is_stale(false, false, None));
    assert!(staging_is_stale(false, true, young));
    assert!(!staging_is_stale(true, true, old));
    assert!(!staging_is_stale(true, false, young));
    assert!(!staging_is_stale(true, false, None));
    assert!(staging_is_stale(true, false, old));
    assert!(is_process_number(1));
    assert!(!is_process_number(4294967295));
}

#[test]
fn cache_names_come_from_the_path() {
    let hash = "ba7816bf8f01cfea414140de5dae2223b00361a396177a9cb410ff61f20015ad";
    assert_eq!(cache_name("abc", ".strings"), format!("{hash}.strings.bin"));
    assert_eq!(cache_name_ext("abc", ".p2.cache"), format!("{hash}.p2.cache"));
    let names = delete_cache("abc");
    assert_eq!(names.len(), 12);
    assert_eq!(names[0], format!("{hash}.p2.cache"));
    assert_eq!(names[5], format!("{hash}.crypto.bin"));
    assert_eq!(names[8], format!("{hash}.lidx.rkyv"));
    assert_eq!(names[9], format!("{hash}.bin"));
    assert_eq!(names[11], format!("{hash}-lidx.bin"));
}

#[test]
fn clearing_takes_caches_and_staging_only() {
    assert!(is_cache_file("a.bin"));
    assert!(is_cache_file("a.b.rkyv"));
    assert!(is_cache_file("a.cache"));
    assert!(is_cache_file(".a.cache.tmp.1.2"));
    assert!(!is_cache_file("a.cache.tmp.1.2"));
    assert!(!is_cache_file(".cache"));
    assert!(!is_cache_file("cache"));
    assert!(!is_cache_file("a.txt"));
    assert!(!is_cache_file(".."));
    assert!(!is_cache_file(""));
}

#[test]
fn payloads_are_read_back_for_their_trace() {
    let trace = b"trace bytes";
    let file = save_bincode_raw(trace, b"payload");
    assert_eq!(file.len(), 48 + 7);
    assert_eq!(&file[..8], b"TCACHE03");
    assert_eq!(&file[8..16], &11u64.to_le_bytes());
    assert!(validate_header(&file, trace));
    assert_eq!(load_cached(&file, trace), Some(&b"payload"[..]));
    assert_eq!(load_cached(&file, b"trace bytez"), None);
    assert_eq!(load_cached(&file, b"trace byte"), None);
    assert_eq!(load_cached(&file[..47], trace), None);
    assert_eq!(load_cached(&file[..48], trace), Some(&b""[..]));
}

#[test]
fn payload_caches_differ_by_name_alone() {
    let trace = b"t";
    let strings = save_string_cache("abc", trace, b"s");
    let crypto = save_crypto_cache("abc", trace, b"c");
    let extra = save_gumtrace_extra("abc", trace, b"e");
    assert!(strings.name.ends_with(".strings.bin"));
    assert!(crypto.name.ends_with(".crypto.bin"));
    assert!(extra.name.ends_with(".gum-extra.bin"));
    assert_eq!(load_string_cache(&strings.content, trace), Some(&b"s"[..]));
    assert_eq!(load_crypto_cache(&crypto.content, trace), Some(&b"c"[..]));
    assert_eq!(load_gumtrace_extra(&extra.content, trace), Some(&b"e"[..]));
    assert_eq!(load_string_cache(&strings.content, b"u"), None);
}

#[test]
fn only_the_first_part_of_a_trace_is_hashed() {
    let mut trace = vec![0u8; 1048577];
    let file = save_bincode_raw(&trace, b"x");
    trace[1048576] = 1;
    assert_eq!(load_cached(&file, &trace), Some(&b"x"[..]));
    trace[1048575] = 1;
    assert_eq!(load_cached(&file, &trace), None);
}

#[test]
fn sections_are_used_for_their_trace_and_kind() {
    let trace = b"lines";
    let sections = LineIndexArchive { sampled_offsets: vec![0], total: 1 }.to_sections();
    let file = save_sections_raw(trace, &sections);
    assert_eq!(file.len(), 64 + sections.len());
    assert_eq!(&file[..8], b"TCACHE06");
    assert_eq!(&file[48..64], &[0u8; 16]);
    assert_eq!(load_lidx_cache(&file, trace), Some(&sections[..]));
    assert_eq!(load_phase2_cache(&file, trace), None);
    assert_eq!(load_scan_cache(&file, trace), None);
    assert_eq!(load_lidx_cache(&file, b"other"), None);
    assert_eq!(load_lidx_cache(&file[..63], trace), None);
    assert_eq!(load_lidx_cache(&save_bincode_raw(trace, &file[48..]), trace), None);
}

fn args(list: &[&str]) -> Vec<String> {
    list.iter().map(|s| s.to_string()).collect()
}

#[test]
fn descriptors_are_read_from_the_arguments() {
    let list = args(&["helper", "--trace-fd", "7", "--pattern-fd", "-1", "--last"]);
    assert_eq!(parse_fd_arg(&list, "--trace-fd"), Ok(7));
    assert_eq!(parse_fd_arg(&list, "--pattern-fd"), Err(FdArgError::Negative));
    assert_eq!(parse_fd_arg(&list, "--last"), Err(FdArgError::Missing));
    assert_eq!(parse_fd_arg(&list, "--none"), Err(FdArgError::Missing));
    assert_eq!(parse_fd_arg(&args(&["a", "x"]), "a"), Err(FdArgError::Invalid));
    assert_eq!(parse_fd_arg(&args(&["a", ""]), "a"), Err(FdArgError::Invalid));
    assert_eq!(parse_fd_arg(&args(&["a", "+"]), "a"), Err(FdArgError::Invalid));
    assert_eq!(parse_fd_arg(&args(&["a", "+3"]), "a"), Ok(3));
    assert_eq!(parse_fd_arg(&args(&["a", "-0"]), "a"), Ok(0));
    assert_eq!(parse_fd_arg(&args(&["a", "2147483647"]), "a"), Ok(2147483647));
    assert_eq!(parse_fd_arg(&args(&["a", "2147483648"]), "a"), Err(FdArgError::Invalid));
    assert_eq!(parse_fd_arg(&args(&["a", "-2147483648"]), "a"), Err(FdArgError::Negative));
    assert_eq!(parse_fd_arg(&args(&["a", "-2147483649"]), "a"), Err(FdArgError::Invalid));
}

fn invalid_text<T>(r: Result<T, TraceError>) -> String {
    match r {
        Err(TraceError::InvalidArgument(text)) => text,
        _ => panic!("not refused"),
    }
}

#[test]
fn reserved_and_equal_descriptors_are_refused() {
    assert!(validate_inherited_fds(3, 4).is_ok());
    assert_eq!(
        invalid_text(validate_inherited_fds(2, 4)),
        "trace and pattern fds must not use reserved standard descriptors 0, 1, or 2"
    );
    assert_eq!(
        invalid_text(validate_inherited_fds(5, 5)),
        "trace and pattern fds must be different descriptors"
    );
}

#[test]
fn helper_requests_become_searches() {
    let request = HelperRequest {
        seq_range: Some((1, 2)),
        memory_range: Some((0x1000, 0x10)),
        offset: 3,
        limit: 4,
    };
    let o = helper_options(vec![1, 2], &request).unwrap();
    assert_eq!(o.pattern, vec![1, 2]);
    assert_eq!(o.seq_range, Some((1, 2)));
    assert_eq!(o.memory_range, Some((0x1000, 0x1010)));
    assert_eq!((o.offset, o.limit), (3, 4));
    assert_eq!(
        invalid_text(helper_options(vec![], &request)),
        "pattern fd contains an empty pattern"
    );
    assert_eq!(invalid_text(check_pattern(&vec![])), "pattern fd contains an empty pattern");
    assert!(check_pattern(&vec![0]).is_ok());
    let far = HelperRequest { memory_range: Some((u64::MAX, 1)), ..request };
    assert_eq!(
        invalid_text(helper_options(vec![1], &far)),
        "memory range address + size overflows u64"
    );
    assert_eq!(
        invalid_text(check_limit(MAX_CONTROL_BYTES + 1, MAX_CONTROL_BYTES, "control request")),
        "control request exceeds 1048576 byte limit"
    );
    assert!(check_limit(MAX_CONTROL_BYTES, MAX_CONTROL_BYTES, "control request").is_ok());
}

#[test]
fn addresses_are_read_in_hexadecimal() {
    assert_eq!(parse_hex_addr("0x2000"), Some(0x2000));
    assert_eq!(parse_hex_addr("0XfF"), Some(255));
    assert_eq!(parse_hex_addr("ff"), Some(255));
    assert_eq!(parse_hex_addr("0x"), None);
    assert_eq!(parse_hex_addr(""), None);
    assert_eq!(parse_hex_addr("0xg"), None);
    assert_eq!(parse_hex_addr("0xffffffffffffffff"), Some(u64::MAX));
    assert_eq!(parse_hex_addr("0x10000000000000000"), None);
}
