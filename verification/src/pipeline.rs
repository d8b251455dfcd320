//! The renaming pipeline, step by step.
//!
//! The build step around this library performs the outside work — probing
//! the file system, running the symbol lister and the binary editor,
//! writing the mapping file — and feeds every outcome back as an event.
//! Each decision between those steps is taken here: which archives to
//! process, what to write, what to run next, and when to abort. A single
//! failed tool invocation aborts the whole build; only the case of no
//! archives at all is recoverable, answered by one warning and nothing
//! else.

use vstd::prelude::*;

verus! {

use crate::mapping::RenameMapping;
use crate::mapping::append_bytes;
use crate::mapping::build_mapping;
use crate::mapping::is_mapping_for;
use crate::mapping::serialize_mapping;
use crate::mapping::serialize_pairs;
use crate::symbols::extract_symbols;
use crate::symbols::symbols_of;
use vstd::slice::slice_to_vec;

/// The views of a sequence of byte-string paths.
pub open spec fn path_views(ps: Seq<Vec<u8>>) -> Seq<Seq<u8>> {
    ps.map_values(|p: Vec<u8>| p@)
}

/// The path separator, `/` in ASCII.
pub open spec fn sep() -> Seq<u8> {
    seq![47u8]
}

/// The bytes of `build`.
pub open spec fn build_dir_name() -> Seq<u8> {
    seq![98u8, 117u8, 105u8, 108u8, 100u8]
}

/// The bytes of `ssl`.
pub open spec fn ssl_dir_name() -> Seq<u8> {
    seq![115u8, 115u8, 108u8]
}

/// The bytes of `crypto`.
pub open spec fn crypto_dir_name() -> Seq<u8> {
    seq![99u8, 114u8, 121u8, 112u8, 116u8, 111u8]
}

/// The bytes of `libssl.a`.
pub open spec fn libssl_name() -> Seq<u8> {
    seq![108u8, 105u8, 98u8, 115u8, 115u8, 108u8, 46u8, 97u8]
}

/// The bytes of `libcrypto.a`.
pub open spec fn libcrypto_name() -> Seq<u8> {
    seq![108u8, 105u8, 98u8, 99u8, 114u8, 121u8, 112u8, 116u8, 111u8, 46u8, 97u8]
}

/// The bytes of `redefine_syms.txt`.
pub open spec fn mapping_file_name() -> Seq<u8> {
    seq![
        114u8, 101u8, 100u8, 101u8, 102u8, 105u8, 110u8, 101u8, 95u8, 115u8, 121u8, 109u8,
        115u8, 46u8, 116u8, 120u8, 116u8,
    ]
}

/// The six candidate archive paths under an output directory: the root
/// build directory and its two component subdirectories, each probed for
/// the two archive file names.
pub open spec fn candidate_paths(out_dir: Seq<u8>) -> Seq<Seq<u8>> {
    let bdir = out_dir + sep() + build_dir_name();
    let sdir = bdir + sep() + ssl_dir_name();
    let cdir = bdir + sep() + crypto_dir_name();
    seq![
        bdir + sep() + libssl_name(),
        bdir + sep() + libcrypto_name(),
        sdir + sep() + libssl_name(),
        sdir + sep() + libcrypto_name(),
        cdir + sep() + libssl_name(),
        cdir + sep() + libcrypto_name(),
    ]
}

/// Joins a directory path and a file name with the separator.
fn join_path(dir: &[u8], name: &[u8]) -> (r: Vec<u8>)
    ensures
        r@ == dir@ + sep() + name@,
{
    let mut r = slice_to_vec(dir);
    r.push(47);
    append_bytes(&mut r, name);
    proof {
        assert(r@ =~= dir@ + sep() + name@);
    }
    r
}

/// The six candidate archive paths, as the pipeline probes them.
pub fn candidate_archive_paths(out_dir: &[u8]) -> (paths: Vec<Vec<u8>>)
    ensures
        path_views(paths@) == candidate_paths(out_dir@),
{
    let mut ssl_file: Vec<u8> = Vec::new();
    append_bytes(&mut ssl_file, &[108, 105, 98, 115, 115, 108, 46, 97]);
    let mut crypto_file: Vec<u8> = Vec::new();
    append_bytes(&mut crypto_file, &[108, 105, 98, 99, 114, 121, 112, 116, 111, 46, 97]);
    let bdir = join_path(out_dir, &[98, 117, 105, 108, 100]);
    let sdir = join_path(bdir.as_slice(), &[115, 115, 108]);
    let cdir = join_path(bdir.as_slice(), &[99, 114, 121, 112, 116, 111]);
    proof {
        assert(seq![108u8, 105u8, 98u8, 115u8, 115u8, 108u8, 46u8, 97u8] =~= libssl_name());
        assert(seq![
            108u8, 105u8, 98u8, 99u8, 114u8, 121u8, 112u8, 116u8, 111u8, 46u8, 97u8,
        ] =~= libcrypto_name());
        assert(seq![98u8, 117u8, 105u8, 108u8, 100u8] =~= build_dir_name());
        assert(seq![115u8, 115u8, 108u8] =~= ssl_dir_name());
        assert(seq![99u8, 114u8, 121u8, 112u8, 116u8, 111u8] =~= crypto_dir_name());
        assert(ssl_file@ =~= libssl_name());
        assert(crypto_file@ =~= libcrypto_name());
    }
    let mut paths: Vec<Vec<u8>> = Vec::new();
    paths.push(join_path(bdir.as_slice(), ssl_file.as_slice()));
    paths.push(join_path(bdir.as_slice(), crypto_file.as_slice()));
    paths.push(join_path(sdir.as_slice(), ssl_file.as_slice()));
    paths.push(join_path(sdir.as_slice(), crypto_file.as_slice()));
    paths.push(join_path(cdir.as_slice(), ssl_file.as_slice()));
    paths.push(join_path(cdir.as_slice(), crypto_file.as_slice()));
    proof {
        assert(path_views(paths@) =~= candidate_paths(out_dir@));
    }
    paths
}

/// The path of the mapping file inside the output directory.
pub fn mapping_file_path(out_dir: &[u8]) -> (p: Vec<u8>)
    ensures
        p@ == out_dir@ + sep() + mapping_file_name(),
{
    let p = join_path(
        out_dir,
        &[114, 101, 100, 101, 102, 105, 110, 101, 95, 115, 121, 109, 115, 46, 116, 120, 116],
    );
    proof {
        assert(seq![
            114u8, 101u8, 100u8, 101u8, 102u8, 105u8, 110u8, 101u8, 95u8, 115u8, 121u8, 109u8,
            115u8, 46u8, 116u8, 120u8, 116u8,
        ] =~= mapping_file_name());
    }
    p
}

/// The paths whose probe answered "exists", in candidate order.
pub open spec fn selected(paths: Seq<Seq<u8>>, exists: Seq<bool>) -> Seq<Seq<u8>>
    decreases paths.len(),
{
    if paths.len() == 0 || exists.len() == 0 {
        seq![]
    } else {
        let rest = selected(paths.drop_first(), exists.drop_first());
        if exists[0] {
            seq![paths[0]] + rest
        } else {
            rest
        }
    }
}

/// When every probe answered "missing", nothing is selected.
pub proof fn lemma_selected_none(paths: Seq<Seq<u8>>, exists: Seq<bool>)
    requires
        forall|i: int| 0 <= i < exists.len() ==> !(#[trigger] exists[i]),
    ensures
        selected(paths, exists) == Seq::<Seq<u8>>::empty(),
    decreases paths.len(),
{
    if paths.len() > 0 && exists.len() > 0 {
        assert forall|i: int| 0 <= i < exists.drop_first().len() implies !(
        #[trigger] exists.drop_first()[i]) by {
            assert(exists.drop_first()[i] == exists[i + 1]);
        }
        lemma_selected_none(paths.drop_first(), exists.drop_first());
    }
}

/// Keeps the candidate paths that exist on disk.
fn select_archives(candidates: &Vec<Vec<u8>>, exists: &Vec<bool>) -> (archives: Vec<Vec<u8>>)
    requires
        candidates@.len() == exists@.len(),
    ensures
        path_views(archives@) == selected(path_views(candidates@), exists@),
{
    let ghost cviews = path_views(candidates@);
    let mut archives: Vec<Vec<u8>> = Vec::new();
    let mut k: usize = 0;
    proof {
        assert(cviews.skip(0) =~= cviews);
        assert(exists@.skip(0) =~= exists@);
        assert(path_views(archives@) =~= Seq::<Seq<u8>>::empty());
    }
    while k < candidates.len()
        invariant
            k <= candidates.len(),
            cviews == path_views(candidates@),
            cviews.len() == candidates@.len(),
            candidates@.len() == exists@.len(),
            selected(cviews, exists@) == path_views(archives@) + selected(
                cviews.skip(k as int),
                exists@.skip(k as int),
            ),
        decreases candidates.len() - k,
    {
        proof {
            assert(cviews.skip(k as int)[0] == cviews[k as int]);
            assert(exists@.skip(k as int)[0] == exists@[k as int]);
            assert(cviews.skip(k as int).drop_first() =~= cviews.skip(k as int + 1));
            assert(exists@.skip(k as int).drop_first() =~= exists@.skip(k as int + 1));
        }
        if exists[k] {
            let ghost old_a = archives@;
            archives.push(slice_to_vec(candidates[k].as_slice()));
            proof {
                assert(path_views(archives@) =~= path_views(old_a) + seq![cviews[k as int]]);
            }
        }
        k = k + 1;
    }
    proof {
        assert(cviews.skip(cviews.len() as int).len() == 0);
        assert(selected(cviews, exists@) =~= path_views(archives@));
    }
    archives
}

/// Where the pipeline stands between two pieces of outside work.
pub enum PipelineState {
    /// Waiting for the existence probe of the candidate archive paths.
    Probing { candidates: Vec<Vec<u8>> },
    /// The symbol lister runs over the selected archives.
    Listing { archives: Vec<Vec<u8>> },
    /// The mapping file is being written.
    Persisting { archives: Vec<Vec<u8>> },
    /// The binary editor runs over `archives[next]`.
    Rewriting { archives: Vec<Vec<u8>>, next: usize },
    /// The build step is complete; nothing further runs.
    Finished,
    /// A tool or the file system failed; the whole build aborts.
    Aborted,
}

/// What the outside work answered.
pub enum PipelineEvent {
    /// One existence answer per candidate path, in candidate order.
    Probed { exists: Vec<bool> },
    /// The symbol lister exited successfully with this standard output.
    ListerOutput { output: Vec<u8> },
    /// The symbol lister could not be run or exited abnormally.
    ListerFailed,
    /// The mapping file was created, written and flushed.
    MappingWritten,
    /// The mapping file could not be written.
    MappingWriteFailed,
    /// One binary-editor invocation finished; `ok` is a zero exit status.
    RewriteExit { ok: bool },
}

/// What the build step must do next.
pub enum PipelineAction {
    /// Run the symbol lister once over all of these archives.
    RunLister { archives: Vec<Vec<u8>> },
    /// Emit the single warning that no archives were found.
    WarnNoArchives,
    /// Write these bytes to the mapping file in the output directory.
    WriteMappingFile { mapping: RenameMapping, contents: Vec<u8> },
    /// Run the binary editor over this one archive with the mapping file.
    RunRewriter { archive: Vec<u8> },
    /// Abort the whole build.
    AbortBuild,
    /// Nothing left to do.
    Done,
}

/// The events a state can answer. Finished and aborted pipelines accept
/// none: no further work is ever requested after either.
pub open spec fn accepts(s: PipelineState, e: PipelineEvent) -> bool {
    match (s, e) {
        (PipelineState::Probing { candidates }, PipelineEvent::Probed { exists }) => exists@.len()
            == candidates@.len(),
        (PipelineState::Listing { .. }, PipelineEvent::ListerOutput { .. }) => true,
        (PipelineState::Listing { .. }, PipelineEvent::ListerFailed) => true,
        (PipelineState::Persisting { .. }, PipelineEvent::MappingWritten) => true,
        (PipelineState::Persisting { .. }, PipelineEvent::MappingWriteFailed) => true,
        (PipelineState::Rewriting { .. }, PipelineEvent::RewriteExit { .. }) => true,
        _ => false,
    }
}

/// Internal soundness of a state.
pub open spec fn state_wf(s: PipelineState) -> bool {
    match s {
        PipelineState::Listing { archives } => archives@.len() > 0,
        PipelineState::Persisting { archives } => archives@.len() > 0,
        PipelineState::Rewriting { archives, next } => (next as int) < archives@.len(),
        _ => true,
    }
}

/// The full transition relation of the pipeline: for each state and event,
/// the next state and the action the build step must perform.
pub open spec fn step_post(
    s: PipelineState,
    e: PipelineEvent,
    ns: PipelineState,
    act: PipelineAction,
) -> bool {
    match (s, e) {
        (PipelineState::Probing { candidates }, PipelineEvent::Probed { exists }) => {
            let sel = selected(path_views(candidates@), exists@);
            if sel.len() == 0 {
                &&& ns is Finished
                &&& act is WarnNoArchives
            } else {
                &&& ns matches PipelineState::Listing { archives } && path_views(archives@) == sel
                &&& act matches PipelineAction::RunLister { archives } && path_views(archives@)
                    == sel
            }
        },
        (PipelineState::Listing { archives }, PipelineEvent::ListerOutput { output }) => {
            &&& ns matches PipelineState::Persisting { archives: a } && path_views(a@)
                == path_views(archives@)
            &&& act matches PipelineAction::WriteMappingFile { mapping, contents }
                && is_mapping_for(mapping@, symbols_of(output@)) && contents@ == serialize_pairs(
                mapping@,
            )
        },
        (PipelineState::Listing { .. }, PipelineEvent::ListerFailed) => {
            &&& ns is Aborted
            &&& act is AbortBuild
        },
        (PipelineState::Persisting { archives }, PipelineEvent::MappingWritten) => {
            &&& ns matches PipelineState::Rewriting { archives: a, next } && path_views(a@)
                == path_views(archives@) && next == 0
            &&& act matches PipelineAction::RunRewriter { archive } && archives@.len() > 0
                && archive@ == archives@[0]@
        },
        (PipelineState::Persisting { .. }, PipelineEvent::MappingWriteFailed) => {
            &&& ns is Aborted
            &&& act is AbortBuild
        },
        (PipelineState::Rewriting { archives, next }, PipelineEvent::RewriteExit { ok }) => {
            if !ok {
                // One failed invocation aborts the build at once: none of
                // the archives still pending is touched.
                &&& ns is Aborted
                &&& act is AbortBuild
            } else if next + 1 < archives@.len() {
                &&& ns matches PipelineState::Rewriting { archives: a, next: n } && path_views(a@)
                    == path_views(archives@) && n == next + 1
                &&& act matches PipelineAction::RunRewriter { archive } && archive@ == archives@[
                    next + 1
                ]@
            } else {
                &&& ns is Finished
                &&& act is Done
            }
        },
        _ => false,
    }
}

/// Starts the pipeline for one output directory: the first thing the build
/// step must do is probe the six candidate paths.
pub fn start(out_dir: &[u8]) -> (s: PipelineState)
    ensures
        s matches PipelineState::Probing { candidates } && path_views(candidates@)
            == candidate_paths(out_dir@),
        state_wf(s),
{
    PipelineState::Probing { candidates: candidate_archive_paths(out_dir) }
}

/// Answers one event: the next state, and the action to perform before
/// the next event is fed back.
pub fn step(state: PipelineState, event: PipelineEvent) -> (r: (PipelineState, PipelineAction))
    requires
        accepts(state, event),
        state_wf(state),
    ensures
        step_post(state, event, r.0, r.1),
        state_wf(r.0),
{
    match (state, event) {
        (PipelineState::Probing { candidates }, PipelineEvent::Probed { exists }) => {
            let archives = select_archives(&candidates, &exists);
            if archives.len() == 0 {
                (PipelineState::Finished, PipelineAction::WarnNoArchives)
            } else {
                let mut listed: Vec<Vec<u8>> = Vec::new();
                let mut k: usize = 0;
                while k < archives.len()
                    invariant
                        k <= archives.len(),
                        path_views(listed@) == path_views(archives@).take(k as int),
                    decreases archives.len() - k,
                {
                    let ghost old_l = listed@;
                    listed.push(slice_to_vec(archives[k].as_slice()));
                    k = k + 1;
                    proof {
                        assert(path_views(listed@) =~= path_views(old_l) + seq![
                            path_views(archives@)[k - 1],
                        ]);
                        assert(path_views(listed@) =~= path_views(archives@).take(k as int));
                    }
                }
                proof {
                    assert(path_views(archives@).take(archives@.len() as int) =~= path_views(
                        archives@,
                    ));
                }
                (
                    PipelineState::Listing { archives },
                    PipelineAction::RunLister { archives: listed },
                )
            }
        },
        (PipelineState::Listing { archives }, PipelineEvent::ListerOutput { output }) => {
            let syms = extract_symbols(output.as_slice());
            let mapping = build_mapping(&syms);
            let contents = serialize_mapping(&mapping);
            proof {
                assert(syms@.map_values(|s: Vec<u8>| s@) == symbols_of(output@));
            }
            (
                PipelineState::Persisting { archives },
                PipelineAction::WriteMappingFile { mapping, contents },
            )
        },
        (PipelineState::Listing { .. }, PipelineEvent::ListerFailed) => {
            (PipelineState::Aborted, PipelineAction::AbortBuild)
        },
        (PipelineState::Persisting { archives }, PipelineEvent::MappingWritten) => {
            let archive = slice_to_vec(archives[0].as_slice());
            (
                PipelineState::Rewriting { archives, next: 0 },
                PipelineAction::RunRewriter { archive },
            )
        },
        (PipelineState::Persisting { .. }, PipelineEvent::MappingWriteFailed) => {
            (PipelineState::Aborted, PipelineAction::AbortBuild)
        },
        (PipelineState::Rewriting { archives, next }, PipelineEvent::RewriteExit { ok }) => {
            if !ok {
                (PipelineState::Aborted, PipelineAction::AbortBuild)
            } else {
                let len = archives.len();
                proof {
                    assert((next as int) < archives@.len());
                }
                let n = next + 1;
                if n < len {
                    let archive = slice_to_vec(archives[n].as_slice());
                    (
                        PipelineState::Rewriting { archives, next: n },
                        PipelineAction::RunRewriter { archive },
                    )
                } else {
                    (PipelineState::Finished, PipelineAction::Done)
                }
            }
        },
        _ => (PipelineState::Aborted, PipelineAction::AbortBuild),
    }
}

/// Law: when no candidate archive exists, the probe answer finishes the
/// pipeline with exactly the one warning action, and the finished pipeline
/// accepts no further event — zero tool invocations follow.
pub proof fn lemma_nothing_to_do(
    s: PipelineState,
    e: PipelineEvent,
    ns: PipelineState,
    act: PipelineAction,
)
    requires
        s is Probing,
        e matches PipelineEvent::Probed { exists } && forall|i: int|
            0 <= i < exists@.len() ==> !(#[trigger] exists@[i]),
        step_post(s, e, ns, act),
    ensures
        ns is Finished,
        act is WarnNoArchives,
        forall|e2: PipelineEvent| !accepts(ns, e2),
{
    let candidates = s->Probing_candidates;
    let exists = e->Probed_exists;
    lemma_selected_none(path_views(candidates@), exists@);
}

} // verus!
