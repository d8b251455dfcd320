use symbol_prefix::mapping::build_mapping;
use symbol_prefix::mapping::parse_mapping;
use symbol_prefix::mapping::serialize_mapping;
use symbol_prefix::naming::prefixed_name;
use symbol_prefix::pipeline::candidate_archive_paths;
use symbol_prefix::pipeline::mapping_file_path;
use symbol_prefix::pipeline::start;
use symbol_prefix::pipeline::step;
use symbol_prefix::pipeline::PipelineAction;
use symbol_prefix::pipeline::PipelineEvent;
use symbol_prefix::pipeline::PipelineState;

fn names(list: &[&[u8]]) -> Vec<Vec<u8>> {
    list.iter().map(|n| n.to_vec()).collect()
}

#[test]
fn mapping_dedupes_and_sorts() {
    // Duplicates collapse; mixed case sorts by byte value (upper first).
    let m = build_mapping(&names(&[b"beta", b"Alpha", b"beta", b"alpha", b"Alpha"]));
    let originals: Vec<Vec<u8>> = m.pairs.iter().map(|p| p.original.clone()).collect();
    assert_eq!(
        originals,
        vec![b"Alpha".to_vec(), b"alpha".to_vec(), b"beta".to_vec()]
    );
}

#[test]
fn mapping_applies_the_prefix_rule() {
    let m = build_mapping(&names(&[b"SSL_new", b"EVP_PKEY_free"]));
    for p in &m.pairs {
        let mut expected = b"BSSL_".to_vec();
        expected.extend_from_slice(&p.original);
        assert_eq!(p.prefixed, expected);
        // The binding name rewriter computes the same name independently.
        assert_eq!(p.prefixed, prefixed_name(&p.original));
    }
}

#[test]
fn mapping_construction_is_idempotent() {
    let list = names(&[b"c", b"a", b"b", b"a"]);
    let once = serialize_mapping(&build_mapping(&list));
    let twice = serialize_mapping(&build_mapping(&list));
    assert_eq!(once, twice);
    // A reordering of the same names gives the same bytes too.
    let reordered = names(&[b"a", b"b", b"a", b"c"]);
    assert_eq!(once, serialize_mapping(&build_mapping(&reordered)));
}

#[test]
fn mapping_file_format() {
    let m = build_mapping(&names(&[b"SSL_table", b"SSL_new"]));
    let out = serialize_mapping(&m);
    assert_eq!(out, b"SSL_new BSSL_SSL_new\nSSL_table BSSL_SSL_table\n".to_vec());
}

#[test]
fn empty_mapping_serializes_to_nothing() {
    let m = build_mapping(&names(&[]));
    assert!(m.pairs.is_empty());
    assert_eq!(serialize_mapping(&m), Vec::<u8>::new());
}

#[test]
fn mapping_round_trips_through_the_file_format() {
    let m = build_mapping(&names(&[b"SSL_new", b"EVP_PKEY_free", b"SSL_new"]));
    let out = serialize_mapping(&m);
    let back = parse_mapping(&out).expect("serialized mapping must re-parse");
    assert_eq!(back.pairs.len(), m.pairs.len());
    for (a, b) in m.pairs.iter().zip(back.pairs.iter()) {
        assert_eq!(a.original, b.original);
        assert_eq!(a.prefixed, b.prefixed);
    }
}

#[test]
fn parse_mapping_rejects_a_malformed_line() {
    assert!(parse_mapping(b"SSL_new BSSL_SSL_new\nbad\n").is_none());
    assert!(parse_mapping(b"one two three\n").is_none());
}

#[test]
fn candidate_paths_are_the_six_expected() {
    let paths = candidate_archive_paths(b"/out");
    let expected: Vec<Vec<u8>> = [
        &b"/out/build/libssl.a"[..],
        b"/out/build/libcrypto.a",
        b"/out/build/ssl/libssl.a",
        b"/out/build/ssl/libcrypto.a",
        b"/out/build/crypto/libssl.a",
        b"/out/build/crypto/libcrypto.a",
    ]
    .iter()
    .map(|p| p.to_vec())
    .collect();
    assert_eq!(paths, expected);
}

#[test]
fn mapping_file_path_is_inside_the_output_directory() {
    assert_eq!(mapping_file_path(b"/out"), b"/out/redefine_syms.txt".to_vec());
}

#[test]
fn no_archives_warns_once_and_runs_nothing() {
    let state = start(b"/out");
    let exists = vec![false; 6];
    let (state, action) = step(state, PipelineEvent::Probed { exists });
    assert!(matches!(state, PipelineState::Finished));
    assert!(matches!(action, PipelineAction::WarnNoArchives));
}

#[test]
fn rewriter_failure_aborts_before_remaining_archives() {
    let state = start(b"/out");
    // The two archives in the root build directory exist.
    let exists = vec![true, true, false, false, false, false];
    let (state, action) = step(state, PipelineEvent::Probed { exists });
    let archives = match &action {
        PipelineAction::RunLister { archives } => archives.clone(),
        _ => panic!("expected the lister to run"),
    };
    assert_eq!(archives.len(), 2);
    let output = b"0000000000000000 T SSL_new\n".to_vec();
    let (state, action) = step(state, PipelineEvent::ListerOutput { output });
    assert!(matches!(action, PipelineAction::WriteMappingFile { .. }));
    let (state, action) = step(state, PipelineEvent::MappingWritten);
    match &action {
        PipelineAction::RunRewriter { archive } => {
            assert_eq!(archive, &b"/out/build/libssl.a".to_vec());
        }
        _ => panic!("expected the rewriter to run"),
    }
    // The first invocation exits non-zero: the build aborts at once and
    // the second archive is never touched.
    let (state, action) = step(state, PipelineEvent::RewriteExit { ok: false });
    assert!(matches!(state, PipelineState::Aborted));
    assert!(matches!(action, PipelineAction::AbortBuild));
}

#[test]
fn lister_failure_aborts() {
    let state = start(b"/out");
    let exists = vec![true, false, false, false, false, false];
    let (state, _) = step(state, PipelineEvent::Probed { exists });
    let (state, action) = step(state, PipelineEvent::ListerFailed);
    assert!(matches!(state, PipelineState::Aborted));
    assert!(matches!(action, PipelineAction::AbortBuild));
}

#[test]
fn mapping_write_failure_aborts() {
    let state = start(b"/out");
    let exists = vec![true, false, false, false, false, false];
    let (state, _) = step(state, PipelineEvent::Probed { exists });
    let output = b"0000000000000000 T SSL_new\n".to_vec();
    let (state, _) = step(state, PipelineEvent::ListerOutput { output });
    let (state, action) = step(state, PipelineEvent::MappingWriteFailed);
    assert!(matches!(state, PipelineState::Aborted));
    assert!(matches!(action, PipelineAction::AbortBuild));
}

#[test]
fn full_pipeline_rewrites_every_archive() {
    let state = start(b"/out");
    let exists = vec![true, false, false, true, false, false];
    let (state, action) = step(state, PipelineEvent::Probed { exists });
    match &action {
        PipelineAction::RunLister { archives } => {
            assert_eq!(archives[0], b"/out/build/libssl.a".to_vec());
            assert_eq!(archives[1], b"/out/build/ssl/libcrypto.a".to_vec());
        }
        _ => panic!("expected the lister to run"),
    }
    let output = b"0000000000000008 D SSL_table\n0000000000000000 T SSL_new\n".to_vec();
    let (state, action) = step(state, PipelineEvent::ListerOutput { output });
    match &action {
        PipelineAction::WriteMappingFile { contents, .. } => {
            assert_eq!(
                contents,
                &b"SSL_new BSSL_SSL_new\nSSL_table BSSL_SSL_table\n".to_vec()
            );
        }
        _ => panic!("expected the mapping file to be written"),
    }
    let (state, action) = step(state, PipelineEvent::MappingWritten);
    match &action {
        PipelineAction::RunRewriter { archive } => {
            assert_eq!(archive, &b"/out/build/libssl.a".to_vec());
        }
        _ => panic!("expected the first rewrite"),
    }
    let (state, action) = step(state, PipelineEvent::RewriteExit { ok: true });
    match &action {
        PipelineAction::RunRewriter { archive } => {
            assert_eq!(archive, &b"/out/build/ssl/libcrypto.a".to_vec());
        }
        _ => panic!("expected the second rewrite"),
    }
    let (state, action) = step(state, PipelineEvent::RewriteExit { ok: true });
    assert!(matches!(state, PipelineState::Finished));
    assert!(matches!(action, PipelineAction::Done));
}
