//! Executable resolution: which interpreter runs the worker.
//!
//! An isolated interpreter nested under the worker directory is preferred;
//! when it is absent on disk, the bare system command name for the host
//! operating system is used. Paths are byte strings joined with `/`, which
//! both OS families accept. Existence on disk is the caller's observation;
//! nothing else about the interpreter is inspected here.

use vstd::prelude::*;
use vstd::string::StringSliceAdditionalSpecFns;

verus! {

pub open spec fn sep() -> Seq<u8> {
    "/".spec_bytes()
}

/// The isolated interpreter's path relative to the worker directory, per OS
/// family.
pub open spec fn venv_rel(windows: bool) -> Seq<u8> {
    if windows {
        "venv/Scripts/python.exe".spec_bytes()
    } else {
        "venv/bin/python".spec_bytes()
    }
}

/// The bare system command name, per OS family.
pub open spec fn bare_interpreter(windows: bool) -> Seq<u8> {
    if windows {
        "python.exe".spec_bytes()
    } else {
        "python".spec_bytes()
    }
}

/// What the resolver returns: the isolated interpreter when present, the
/// bare command name otherwise.
pub open spec fn spec_resolve(worker_dir: Seq<u8>, windows: bool, venv_present: bool) -> Seq<u8> {
    if venv_present {
        worker_dir + sep() + venv_rel(windows)
    } else {
        bare_interpreter(windows)
    }
}

/// The path at which the isolated interpreter is looked for.
pub fn venv_interpreter_path(worker_dir: &Vec<u8>, windows: bool) -> (r: Vec<u8>)
    ensures
        r@ == worker_dir@ + sep() + venv_rel(windows),
{
    let mut r = Vec::new();
    let mut wd = worker_dir.clone();
    proof {
        assert(r@ =~= Seq::<u8>::empty());
    }
    r.append(&mut wd);
    let mut s = vstd::string::StrSliceExecFns::as_bytes_vec("/");
    r.append(&mut s);
    let mut rel = if windows {
        vstd::string::StrSliceExecFns::as_bytes_vec("venv/Scripts/python.exe")
    } else {
        vstd::string::StrSliceExecFns::as_bytes_vec("venv/bin/python")
    };
    r.append(&mut rel);
    proof {
        assert(r@ =~= worker_dir@ + sep() + venv_rel(windows));
    }
    r
}

/// Resolve the interpreter: the isolated one when the caller saw it on disk,
/// else the bare command name for the OS family.
pub fn resolve_executable(worker_dir: &Vec<u8>, windows: bool, venv_present: bool) -> (r: Vec<u8>)
    ensures
        r@ == spec_resolve(worker_dir@, windows, venv_present),
{
    if venv_present {
        venv_interpreter_path(worker_dir, windows)
    } else {
        if windows {
            vstd::string::StrSliceExecFns::as_bytes_vec("python.exe")
        } else {
            vstd::string::StrSliceExecFns::as_bytes_vec("python")
        }
    }
}

/// The resolver returns the isolated interpreter path exactly when it exists
/// on disk, and the bare command name otherwise, on both OS branches.
pub proof fn lemma_resolver_cases(worker_dir: Seq<u8>, windows: bool)
    ensures
        spec_resolve(worker_dir, windows, true) == worker_dir + sep() + venv_rel(windows),
        spec_resolve(worker_dir, windows, false) == bare_interpreter(windows),
        spec_resolve(worker_dir, true, true) == worker_dir + sep() + "venv/Scripts/python.exe".spec_bytes(),
        spec_resolve(worker_dir, false, true) == worker_dir + sep() + "venv/bin/python".spec_bytes(),
        spec_resolve(worker_dir, true, false) == "python.exe".spec_bytes(),
        spec_resolve(worker_dir, false, false) == "python".spec_bytes(),
{
}

} // verus!
