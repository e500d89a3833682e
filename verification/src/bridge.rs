//! Orchestration of one worker invocation.
//!
//! The bridge is a pure pipeline over observations: from a view of the
//! filesystem it prepares an invocation plan (worker directory, interpreter,
//! argument list, environment, temp-file path and payload bytes); from the
//! finished process's captured output it produces the typed result or the
//! structured error. The surrounding binary walks directories, writes the
//! temp file, spawns the process, and deletes the temp file once the spawn
//! has been attempted, on success and failure alike.

use vstd::prelude::*;
use vstd::string::StringSliceAdditionalSpecFns;
use crate::json::JVal;
use crate::json::enc;
use crate::json::jview_members;
use crate::payload::{decode_response, encode_request, response_of, RequestMap, ResponsePayload};
use crate::resolver::{resolve_executable, sep, spec_resolve};
use crate::workspace::{locate_workspace, names_view, spec_locate};

verus! {

/// Why an invocation failed. Every variant carries what the caller needs to
/// surface the failure verbatim.
#[derive(Debug, PartialEq, Eq)]
pub enum BridgeError {
    WorkspaceNotFound,
    WorkerDirectoryMissing { path: Vec<u8> },
    TempFileIoFailed { message: Vec<u8> },
    SpawnFailed { message: Vec<u8> },
    ProcessExitedNonZero { stdout: Vec<u8>, stderr: Vec<u8> },
    MalformedResponse { raw: Vec<u8> },
}

/// What the spawned process left behind: whether it exited with status zero,
/// and its captured output streams.
pub struct ProcessOutput {
    pub exited_zero: bool,
    pub stdout: Vec<u8>,
    pub stderr: Vec<u8>,
}

/// The caller's observations of the filesystem for one invocation: the
/// working directory's components, the marker flags for each ancestor
/// prefix, and the two existence checks the bridge depends on.
pub struct FsView {
    pub names: Vec<Vec<u8>>,
    pub markers: Vec<bool>,
    pub worker_dir_exists: bool,
    pub venv_present: bool,
    pub windows: bool,
}

/// Everything the caller must do to run the worker once.
#[derive(Debug, PartialEq, Eq)]
pub struct InvocationPlan {
    pub worker_dir: Vec<u8>,
    pub executable: Vec<u8>,
    pub args: Vec<Vec<u8>>,
    pub env: Vec<(Vec<u8>, Vec<u8>)>,
    pub temp_path: Vec<u8>,
    pub payload: Vec<u8>,
}

pub open spec fn worker_subdir() -> Seq<u8> {
    "backend".spec_bytes()
}

pub open spec fn entry_script() -> Seq<u8> {
    "main.py".spec_bytes()
}

/// The path formed by the first `k` components, `/`-separated and absolute.
pub open spec fn path_prefix(names: Seq<Seq<u8>>, k: int) -> Seq<u8>
    decreases k,
{
    if k <= 0 {
        Seq::empty()
    } else {
        path_prefix(names, k - 1) + sep() + names[k - 1]
    }
}

/// The worker directory under the workspace root at prefix length `k`.
pub open spec fn worker_dir_spec(names: Seq<Seq<u8>>, k: int) -> Seq<u8> {
    path_prefix(names, k) + sep() + worker_subdir()
}

/// The per-invocation temp file name carrying the request identifier.
pub open spec fn temp_name(id: Seq<u8>) -> Seq<u8> {
    "temp_payload_".spec_bytes() + id + ".json".spec_bytes()
}

/// Distinct identifiers of equal length give distinct temp file names: two
/// in-flight invocations with their own identifiers never share the file.
pub proof fn lemma_temp_names_injective(a: Seq<u8>, b: Seq<u8>)
    requires
        a.len() == b.len(),
        a != b,
    ensures
        temp_name(a) != temp_name(b),
{
    let p = "temp_payload_".spec_bytes();
    if temp_name(a) == temp_name(b) {
        assert forall|x: int| 0 <= x < a.len() implies a[x] == b[x] by {
            assert(temp_name(a)[p.len() + x] == a[x]);
            assert(temp_name(b)[p.len() + x] == b[x]);
        }
        assert(a =~= b);
    }
}

/// Relies on uuid::Uuid::new_v4 and its hyphenated `Display` form: 36 ASCII
/// bytes, lowercase hexadecimal digits and hyphens. Nothing is assumed about
/// which identifier comes back.
#[verifier::external_body]
pub fn fresh_request_id() -> (r: Vec<u8>)
    ensures
        r@.len() == 36,
        forall|x: int| 0 <= x < r@.len() ==> id_byte(#[trigger] r@[x]),
{
    uuid::Uuid::new_v4().to_string().into_bytes()
}

/// Bytes a request identifier may contain.
pub open spec fn id_byte(b: u8) -> bool {
    crate::json::is_digit(b) || 0x61 <= b <= 0x66 || b == 0x2d
}

/// Relies on std::time::SystemTime::now and duration_since: the wall clock
/// as whole seconds since the Unix epoch; a clock before the epoch reads as
/// zero. Nothing is assumed about which instant comes back.
#[verifier::external_body]
pub fn unix_time_secs() -> (r: u64) {
    match std::time::SystemTime::now().duration_since(std::time::UNIX_EPOCH) {
        Ok(d) => d.as_secs(),
        Err(_) => 0,
    }
}

pub fn temp_file_name(id: &Vec<u8>) -> (r: Vec<u8>)
    ensures
        r@ == temp_name(id@),
{
    let mut r = vstd::string::StrSliceExecFns::as_bytes_vec("temp_payload_");
    let mut idc = id.clone();
    r.append(&mut idc);
    let mut ext = vstd::string::StrSliceExecFns::as_bytes_vec(".json");
    r.append(&mut ext);
    proof {
        assert(r@ =~= temp_name(id@));
    }
    r
}

/// The worker directory's path from the components of the workspace root.
pub fn build_worker_dir(names: &Vec<Vec<u8>>, k: usize) -> (r: Vec<u8>)
    requires
        k <= names@.len(),
    ensures
        r@ == worker_dir_spec(names_view(names@), k as int),
{
    let ghost nv = names_view(names@);
    let mut acc: Vec<u8> = Vec::new();
    proof {
        assert(acc@ =~= path_prefix(nv, 0));
    }
    let mut i: usize = 0;
    while i < k
        invariant
            k <= names@.len(),
            0 <= i <= k,
            nv == names_view(names@),
            acc@ == path_prefix(nv, i as int),
        decreases k - i,
    {
        let mut s = vstd::string::StrSliceExecFns::as_bytes_vec("/");
        acc.append(&mut s);
        let mut c = names[i].clone();
        acc.append(&mut c);
        proof {
            assert(acc@ =~= path_prefix(nv, i + 1));
        }
        i = i + 1;
    }
    let mut s = vstd::string::StrSliceExecFns::as_bytes_vec("/");
    acc.append(&mut s);
    let mut w = vstd::string::StrSliceExecFns::as_bytes_vec("backend");
    acc.append(&mut w);
    proof {
        assert(acc@ =~= worker_dir_spec(nv, k as int));
    }
    acc
}

/// What a well-formed plan holds, given the observations it was made from.
pub open spec fn plan_matches(
    plan: InvocationPlan,
    names: Seq<Seq<u8>>,
    k: int,
    windows: bool,
    venv_present: bool,
    command: Seq<u8>,
    request: Seq<(Seq<u8>, JVal)>,
    id: Seq<u8>,
) -> bool {
    let wd = worker_dir_spec(names, k);
    &&& plan.worker_dir@ == wd
    &&& plan.executable@ == spec_resolve(wd, windows, venv_present)
    &&& plan.args@.len() == 3
    &&& plan.args@[0]@ == entry_script()
    &&& plan.args@[1]@ == command
    &&& plan.args@[2]@ == plan.temp_path@
    &&& plan.temp_path@ == wd + sep() + temp_name(id)
    &&& plan.env@.len() == 2
    &&& plan.env@[0].0@ == "PYTHONIOENCODING".spec_bytes()
    &&& plan.env@[0].1@ == "utf-8".spec_bytes()
    &&& plan.env@[1].0@ == "PYTHONPATH".spec_bytes()
    &&& plan.env@[1].1@ == wd
    &&& plan.payload@ == enc(JVal::Obj(request))
}

/// What `prepare_invocation` returns for each outcome of discovery.
pub open spec fn prepare_post(
    r: Result<InvocationPlan, BridgeError>,
    fs: FsView,
    command: Seq<u8>,
    request: Seq<(Seq<u8>, JVal)>,
    id: Seq<u8>,
) -> bool {
    let nv = names_view(fs.names@);
    match spec_locate(nv, fs.markers@) {
        None => r matches Err(e) && e is WorkspaceNotFound,
        Some(k) => if !fs.worker_dir_exists {
            r matches Err(e) && e matches BridgeError::WorkerDirectoryMissing { path } && path@
                == worker_dir_spec(nv, k)
        } else {
            r matches Ok(plan) && plan_matches(
                plan,
                nv,
                k,
                fs.windows,
                fs.venv_present,
                command,
                request,
                id,
            )
        },
    }
}

/// Resolve the workspace and interpreter, encode the request, and lay out
/// the process invocation; or say exactly why none is possible.
pub fn prepare_invocation(
    fs: &FsView,
    command: Vec<u8>,
    request: RequestMap,
    id: &Vec<u8>,
) -> (r: Result<InvocationPlan, BridgeError>)
    requires
        fs.markers@.len() == fs.names@.len() + 1,
    ensures
        prepare_post(r, *fs, command@, request@, id@),
{
    match locate_workspace(&fs.names, &fs.markers) {
        None => Err(BridgeError::WorkspaceNotFound),
        Some(k) => {
            let wd = build_worker_dir(&fs.names, k);
            if !fs.worker_dir_exists {
                return Err(BridgeError::WorkerDirectoryMissing { path: wd });
            }
            let exe = resolve_executable(&wd, fs.windows, fs.venv_present);
            let mut tp = wd.clone();
            let mut s = vstd::string::StrSliceExecFns::as_bytes_vec("/");
            tp.append(&mut s);
            let mut tn = temp_file_name(id);
            tp.append(&mut tn);
            proof {
                assert(tp@ =~= worker_dir_spec(names_view(fs.names@), k as int) + sep()
                    + temp_name(id@));
            }
            let payload = encode_request(request);
            let mut args: Vec<Vec<u8>> = Vec::new();
            args.push(vstd::string::StrSliceExecFns::as_bytes_vec("main.py"));
            args.push(command);
            args.push(tp.clone());
            let mut env: Vec<(Vec<u8>, Vec<u8>)> = Vec::new();
            env.push(
                (
                    vstd::string::StrSliceExecFns::as_bytes_vec("PYTHONIOENCODING"),
                    vstd::string::StrSliceExecFns::as_bytes_vec("utf-8"),
                ),
            );
            env.push((vstd::string::StrSliceExecFns::as_bytes_vec("PYTHONPATH"), wd.clone()));
            Ok(
                InvocationPlan {
                    worker_dir: wd,
                    executable: exe,
                    args,
                    env,
                    temp_path: tp,
                    payload,
                },
            )
        },
    }
}

/// What interpreting a finished process yields: the non-zero exit carries
/// both captured streams verbatim; a zero exit decodes stdout or reports the
/// raw bytes as malformed.
pub open spec fn outcome_post(r: Result<ResponsePayload, BridgeError>, out: ProcessOutput) -> bool {
    if !out.exited_zero {
        r matches Err(e) && e matches BridgeError::ProcessExitedNonZero { stdout, stderr }
            && stdout@ == out.stdout@ && stderr@ == out.stderr@
    } else {
        match response_of(out.stdout@) {
            Some((b, flds)) => r matches Ok(p) && p.success == b && jview_members(p.fields@)
                == flds,
            None => r matches Err(e) && e matches BridgeError::MalformedResponse { raw } && raw@
                == out.stdout@,
        }
    }
}

/// Turn a finished process into the typed result or the structured error.
pub fn interpret_output(out: ProcessOutput) -> (r: Result<ResponsePayload, BridgeError>)
    ensures
        outcome_post(r, out),
{
    if !out.exited_zero {
        return Err(BridgeError::ProcessExitedNonZero { stdout: out.stdout, stderr: out.stderr });
    }
    match decode_response(&out.stdout) {
        Some(p) => Ok(p),
        None => Err(BridgeError::MalformedResponse { raw: out.stdout }),
    }
}

/// Fold the spawn attempt itself into the outcome: a process that could not
/// be started carries the OS message; one that ran is interpreted.
pub fn conclude(spawn: Result<ProcessOutput, Vec<u8>>) -> (r: Result<ResponsePayload, BridgeError>)
    ensures
        match spawn {
            Ok(out) => outcome_post(r, out),
            Err(m) => r matches Err(e) && e matches BridgeError::SpawnFailed { message }
                && message@ == m@,
        },
{
    match spawn {
        Ok(out) => interpret_output(out),
        Err(m) => Err(BridgeError::SpawnFailed { message: m }),
    }
}

} // verus!
