use worker_bridge::bridge::{
    conclude, fresh_request_id, interpret_output, prepare_invocation, temp_file_name,
    BridgeError, FsView, ProcessOutput,
};
use worker_bridge::catalog;
use worker_bridge::payload::{decode_response, RequestMap};

fn names(list: &[&str]) -> Vec<Vec<u8>> {
    list.iter().map(|n| n.as_bytes().to_vec()).collect()
}

fn fs_at(list: &[&str], markers: &[bool]) -> FsView {
    FsView {
        names: names(list),
        markers: markers.to_vec(),
        worker_dir_exists: true,
        venv_present: false,
        windows: false,
    }
}

#[test]
fn prepare_happy_path() {
    let fs = fs_at(&["browser"], &[false, true]);
    let req = catalog::process_url(b"https://example.org".to_vec());
    let id = b"abc".to_vec();
    let plan = prepare_invocation(&fs, req.command, req.payload, &id).unwrap();
    assert_eq!(plan.worker_dir, b"/browser/backend".to_vec());
    assert_eq!(plan.executable, b"python".to_vec());
    assert_eq!(plan.args.len(), 3);
    assert_eq!(plan.args[0], b"main.py".to_vec());
    assert_eq!(plan.args[1], b"process_url".to_vec());
    assert_eq!(plan.args[2], b"/browser/backend/temp_payload_abc.json".to_vec());
    assert_eq!(plan.temp_path, plan.args[2]);
    assert_eq!(plan.env.len(), 2);
    assert_eq!(plan.env[0], (b"PYTHONIOENCODING".to_vec(), b"utf-8".to_vec()));
    assert_eq!(plan.env[1], (b"PYTHONPATH".to_vec(), b"/browser/backend".to_vec()));
    assert_eq!(plan.payload, b"{\"url\":\"https://example.org\"}".to_vec());
}

#[test]
fn prepare_uses_isolated_interpreter_when_present() {
    let mut fs = fs_at(&["browser"], &[false, true]);
    fs.venv_present = true;
    let req = catalog::init_database();
    let id = b"x".to_vec();
    let plan = prepare_invocation(&fs, req.command, req.payload, &id).unwrap();
    assert_eq!(plan.executable, b"/browser/backend/venv/bin/python".to_vec());
}

#[test]
fn prepare_windows_interpreters() {
    let mut fs = fs_at(&["browser"], &[false, true]);
    fs.windows = true;
    fs.venv_present = true;
    let req = catalog::init_database();
    let plan = prepare_invocation(&fs, req.command, req.payload, &b"i".to_vec()).unwrap();
    assert_eq!(plan.executable, b"/browser/backend/venv/Scripts/python.exe".to_vec());

    let mut fs = fs_at(&["browser"], &[false, true]);
    fs.windows = true;
    let req = catalog::init_database();
    let plan = prepare_invocation(&fs, req.command, req.payload, &b"i".to_vec()).unwrap();
    assert_eq!(plan.executable, b"python.exe".to_vec());
}

#[test]
fn prepare_workspace_not_found() {
    let fs = fs_at(&["home", "alice"], &[false, false, false]);
    let req = catalog::init_database();
    let r = prepare_invocation(&fs, req.command, req.payload, &b"i".to_vec());
    assert_eq!(r, Err(BridgeError::WorkspaceNotFound));
}

#[test]
fn prepare_worker_directory_missing() {
    let mut fs = fs_at(&["browser"], &[false, true]);
    fs.worker_dir_exists = false;
    let req = catalog::init_database();
    let r = prepare_invocation(&fs, req.command, req.payload, &b"i".to_vec());
    assert_eq!(
        r,
        Err(BridgeError::WorkerDirectoryMissing { path: b"/browser/backend".to_vec() })
    );
}

#[test]
fn prepare_ascends_from_descendant() {
    // working directory four levels under the workspace root
    let fs = fs_at(
        &["browser", "frontend", "src-tauri", "target", "debug"],
        &[false, true, false, false, false, false],
    );
    let req = catalog::init_database();
    let plan = prepare_invocation(&fs, req.command, req.payload, &b"i".to_vec()).unwrap();
    assert_eq!(plan.worker_dir, b"/browser/backend".to_vec());
}

#[test]
fn prepare_corrects_artifact_directory() {
    // the nearest marked directory is itself `frontend`: ascend to the container
    let fs = fs_at(&["browser", "frontend"], &[false, true, true]);
    let req = catalog::init_database();
    let plan = prepare_invocation(&fs, req.command, req.payload, &b"i".to_vec()).unwrap();
    assert_eq!(plan.worker_dir, b"/browser/backend".to_vec());
}

#[test]
fn exit_nonzero_surfaces_streams_verbatim() {
    let out = ProcessOutput {
        exited_zero: false,
        stdout: b"partial output".to_vec(),
        stderr: b"Traceback: boom".to_vec(),
    };
    let r = interpret_output(out);
    assert_eq!(
        r,
        Err(BridgeError::ProcessExitedNonZero {
            stdout: b"partial output".to_vec(),
            stderr: b"Traceback: boom".to_vec(),
        })
    );
}

#[test]
fn exit_zero_success_only_payload() {
    let out = ProcessOutput {
        exited_zero: true,
        stdout: b"{\"success\": true}".to_vec(),
        stderr: Vec::new(),
    };
    let p = interpret_output(out).unwrap();
    assert!(p.success);
    assert!(p.fields.is_empty());
    assert!(p.field(&b"error".to_vec()).is_none());
    assert!(p.field(&b"message".to_vec()).is_none());
}

#[test]
fn exit_zero_with_fractional_field_decodes() {
    let out = ProcessOutput {
        exited_zero: true,
        stdout: b"{\"success\": true, \"data\": 1.5}".to_vec(),
        stderr: Vec::new(),
    };
    let p = interpret_output(out).unwrap();
    assert!(p.success);
    assert_eq!(
        p.field(&b"data".to_vec()),
        Some(&worker_bridge::JsonValue::Num(b"1.5".to_vec()))
    );
}

#[test]
fn exit_zero_with_escaped_text_decodes() {
    // non-ASCII text escaped the way Python's default JSON writer writes it
    let out = ProcessOutput {
        exited_zero: true,
        stdout: b"{\"success\": true, \"message\": \"caf\\u00e9 \\ud83d\\ude00\"}".to_vec(),
        stderr: Vec::new(),
    };
    let p = interpret_output(out).unwrap();
    assert!(p.success);
    assert_eq!(
        p.field(&b"message".to_vec()),
        Some(&worker_bridge::JsonValue::Str("café 😀".as_bytes().to_vec()))
    );
}

#[test]
fn exit_zero_non_json_is_malformed() {
    let out = ProcessOutput {
        exited_zero: true,
        stdout: b"warning: not json".to_vec(),
        stderr: Vec::new(),
    };
    let r = interpret_output(out);
    assert_eq!(
        r,
        Err(BridgeError::MalformedResponse { raw: b"warning: not json".to_vec() })
    );
}

#[test]
fn exit_zero_array_is_malformed() {
    let out = ProcessOutput {
        exited_zero: true,
        stdout: b"[{\"success\": true}]".to_vec(),
        stderr: Vec::new(),
    };
    let r = interpret_output(out);
    assert_eq!(
        r,
        Err(BridgeError::MalformedResponse { raw: b"[{\"success\": true}]".to_vec() })
    );
}

#[test]
fn missing_success_is_malformed() {
    assert!(decode_response(&b"{\"message\": \"hi\"}".to_vec()).is_none());
    assert!(decode_response(&b"{\"success\": \"yes\"}".to_vec()).is_none());
}

#[test]
fn response_fields_are_projected() {
    let bytes = b"{\"success\": false, \"error\": \"no such command\", \"count\": 2}".to_vec();
    let p = decode_response(&bytes).unwrap();
    assert!(!p.success);
    assert_eq!(
        p.field(&b"error".to_vec()),
        Some(&worker_bridge::JsonValue::Str(b"no such command".to_vec()))
    );
    assert_eq!(p.field(&b"count".to_vec()), Some(&worker_bridge::JsonValue::Int(2)));
    assert!(p.field(&b"success".to_vec()).is_none());
}

#[test]
fn spawn_failure_carries_message() {
    let r = conclude(Err(b"No such file or directory".to_vec()));
    assert_eq!(
        r,
        Err(BridgeError::SpawnFailed { message: b"No such file or directory".to_vec() })
    );
}

#[test]
fn conclude_passes_process_output_through() {
    let out = ProcessOutput {
        exited_zero: true,
        stdout: b"{\"success\":true}".to_vec(),
        stderr: Vec::new(),
    };
    let p = conclude(Ok(out)).unwrap();
    assert!(p.success);
}

#[test]
fn temp_names_follow_identifiers() {
    assert_eq!(temp_file_name(&b"abc".to_vec()), b"temp_payload_abc.json".to_vec());
    assert_ne!(temp_file_name(&b"abc".to_vec()), temp_file_name(&b"abd".to_vec()));
}

#[test]
fn fresh_identifiers_are_distinct_and_filename_safe() {
    let a = fresh_request_id();
    let b = fresh_request_id();
    assert_eq!(a.len(), 36);
    assert_eq!(b.len(), 36);
    assert_ne!(a, b);
    for byte in a.iter().chain(b.iter()) {
        assert!(byte.is_ascii_hexdigit() || *byte == b'-');
    }
}

#[test]
fn concurrent_payloads_use_distinct_temp_files() {
    // two invocations against the same workspace, each with its own identifier
    let fs = fs_at(&["browser"], &[false, true]);
    let first = catalog::process_url(b"https://a.example".to_vec());
    let second = catalog::process_url(b"https://b.example".to_vec());
    let id_a = fresh_request_id();
    let id_b = fresh_request_id();
    let plan_a = prepare_invocation(&fs, first.command, first.payload, &id_a).unwrap();
    let plan_b = prepare_invocation(&fs, second.command, second.payload, &id_b).unwrap();
    assert_ne!(plan_a.temp_path, plan_b.temp_path);
    assert_eq!(plan_a.payload, b"{\"url\":\"https://a.example\"}".to_vec());
    assert_eq!(plan_b.payload, b"{\"url\":\"https://b.example\"}".to_vec());
}

#[test]
fn request_map_encodes_in_insertion_order() {
    let mut m = RequestMap::new();
    m.insert_str(b"b".to_vec(), b"2".to_vec());
    m.insert_int(b"a".to_vec(), 1);
    let bytes = worker_bridge::payload::encode_request(m);
    assert_eq!(bytes, b"{\"b\":\"2\",\"a\":1}".to_vec());
}
