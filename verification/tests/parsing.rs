use symbol_prefix::naming::prefixed_name;
use symbol_prefix::naming::SymbolPrefixCallbacks;
use symbol_prefix::symbols::extract_symbols;
use symbol_prefix::symbols::marker_kind;
use symbol_prefix::symbols::parse_line;
use symbol_prefix::symbols::split_lines;
use symbol_prefix::symbols::split_tokens;
use symbol_prefix::symbols::SymbolKind;

#[test]
fn binding_rewriter_scenario() {
    // "EVP_PKEY_free" with prefix "BSSL" yields "BSSL_EVP_PKEY_free".
    let r = prefixed_name(b"EVP_PKEY_free");
    assert_eq!(r, b"BSSL_EVP_PKEY_free".to_vec());
}

#[test]
fn binding_rewriter_callback_always_overrides() {
    let cb = SymbolPrefixCallbacks;
    let r = cb.generated_link_name_override(b"SSL_new");
    assert_eq!(r, Some(b"BSSL_SSL_new".to_vec()));
    let r = cb.generated_link_name_override(b"");
    assert_eq!(r, Some(b"BSSL_".to_vec()));
}

#[test]
fn filter_scenario_keeps_only_global_non_underscore() {
    let dump = b"0000000000000000 T SSL_new\n\
                 0000000000000008 t SSL_free\n\
                 0000000000000010 D _internal_state\n";
    let syms = extract_symbols(dump);
    assert_eq!(syms, vec![b"SSL_new".to_vec()]);
}

#[test]
fn parser_takes_exactly_the_third_column() {
    let r = parse_line(b"0000000000000010 T SSL_free");
    assert_eq!(r, Some(b"SSL_free".to_vec()));
    // Surrounding columns are not mistaken for the name.
    let r = parse_line(b"00000020 W weak_sym   trailing");
    assert_eq!(r, Some(b"weak_sym".to_vec()));
}

#[test]
fn parser_drops_lines_without_a_name_column() {
    assert_eq!(parse_line(b"0000000000000010 T "), None);
    assert_eq!(parse_line(b" T x"), None);
    assert_eq!(parse_line(b""), None);
}

#[test]
fn parser_drops_local_debug_and_undefined_lines() {
    assert_eq!(parse_line(b"0000000000000008 t local_fn"), None);
    assert_eq!(parse_line(b"0000000000000008 d local_data"), None);
    assert_eq!(parse_line(b"                 U SSL_read"), None);
    assert_eq!(parse_line(b"0000000000000008 N debug_sym"), None);
}

#[test]
fn parser_drops_leading_underscore_names() {
    assert_eq!(parse_line(b"0000000000000010 D _internal_state"), None);
    assert_eq!(parse_line(b"0000000000000010 T __stack_chk"), None);
}

#[test]
fn parser_requires_marker_between_spaces() {
    // A tab-separated marker is not the lister's column layout.
    assert_eq!(parse_line(b"0000\tT\tname"), None);
    // The marker must stand alone, not inside a word.
    assert_eq!(parse_line(b"00T00 x name"), None);
}

#[test]
fn all_six_global_markers_are_kept() {
    for (marker, name) in [
        (b'T', &b"text_sym"[..]),
        (b'D', b"data_sym"),
        (b'B', b"bss_sym"),
        (b'C', b"common_sym"),
        (b'R', b"ro_sym"),
        (b'W', b"weak_sym"),
    ] {
        let mut line = b"0000000000000000 ".to_vec();
        line.push(marker);
        line.push(b' ');
        line.extend_from_slice(name);
        assert_eq!(parse_line(&line), Some(name.to_vec()));
    }
}

#[test]
fn marker_kinds() {
    assert_eq!(marker_kind(b'T'), SymbolKind::Text);
    assert_eq!(marker_kind(b'D'), SymbolKind::InitializedData);
    assert_eq!(marker_kind(b'B'), SymbolKind::UninitializedData);
    assert_eq!(marker_kind(b'C'), SymbolKind::Const);
    assert_eq!(marker_kind(b'R'), SymbolKind::ReadOnly);
    assert_eq!(marker_kind(b'W'), SymbolKind::Weak);
    assert_eq!(marker_kind(b't'), SymbolKind::Other);
    assert_eq!(marker_kind(b'U'), SymbolKind::Other);
}

#[test]
fn split_lines_handles_trailing_newline() {
    let ls = split_lines(b"a\nbb\n");
    assert_eq!(ls, vec![b"a".to_vec(), b"bb".to_vec()]);
    let ls = split_lines(b"a\n\nb");
    assert_eq!(ls, vec![b"a".to_vec(), b"".to_vec(), b"b".to_vec()]);
    let ls = split_lines(b"");
    assert!(ls.is_empty());
}

#[test]
fn split_tokens_by_whitespace() {
    let ts = split_tokens(b"  one\ttwo   three ");
    assert_eq!(ts, vec![b"one".to_vec(), b"two".to_vec(), b"three".to_vec()]);
    let ts = split_tokens(b"");
    assert!(ts.is_empty());
}

#[test]
fn extract_symbols_empty_input() {
    let syms = extract_symbols(b"");
    assert!(syms.is_empty());
}

#[test]
fn extract_symbols_keeps_input_order() {
    let dump = b"0 T zzz\n0 T aaa\n";
    let syms = extract_symbols(dump);
    assert_eq!(syms, vec![b"zzz".to_vec(), b"aaa".to_vec()]);
}
