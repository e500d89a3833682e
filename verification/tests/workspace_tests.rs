use worker_bridge::resolver::resolve_executable;
use worker_bridge::workspace::locate_workspace;

fn names(list: &[&str]) -> Vec<Vec<u8>> {
    list.iter().map(|n| n.as_bytes().to_vec()).collect()
}

#[test]
fn locator_succeeds_at_marked_directory_itself() {
    // the working directory itself holds the marker: no ascent
    let n = names(&["browser"]);
    let markers = vec![false, true];
    assert_eq!(locate_workspace(&n, &markers), Some(1));
}

#[test]
fn locator_ascends_to_nearest_marked_ancestor() {
    // four levels below the workspace root
    let n = names(&["browser", "frontend", "src-tauri", "target", "debug"]);
    let markers = vec![false, true, false, false, false, false];
    assert_eq!(locate_workspace(&n, &markers), Some(1));
}

#[test]
fn locator_fails_with_no_marked_ancestor() {
    let n = names(&["home", "alice", "projects"]);
    let markers = vec![false, false, false, false];
    assert_eq!(locate_workspace(&n, &markers), None);
}

#[test]
fn locator_corrects_out_of_artifact_directories() {
    // the nearest marked directory is `frontend`: ascend to the container
    let n = names(&["browser", "frontend"]);
    let markers = vec![false, true, true];
    assert_eq!(locate_workspace(&n, &markers), Some(1));
}

#[test]
fn locator_corrects_to_root_without_container() {
    // artifact directory with no enclosing container at all
    let n = names(&["work", "frontend"]);
    let markers = vec![false, false, true];
    assert_eq!(locate_workspace(&n, &markers), Some(0));
}

#[test]
fn locator_root_marker() {
    let n = names(&[]);
    let markers = vec![true];
    assert_eq!(locate_workspace(&n, &markers), Some(0));
}

#[test]
fn resolver_prefers_isolated_interpreter() {
    let wd = b"/w/backend".to_vec();
    assert_eq!(
        resolve_executable(&wd, false, true),
        b"/w/backend/venv/bin/python".to_vec()
    );
    assert_eq!(
        resolve_executable(&wd, true, true),
        b"/w/backend/venv/Scripts/python.exe".to_vec()
    );
}

#[test]
fn resolver_falls_back_to_system_command() {
    let wd = b"/w/backend".to_vec();
    assert_eq!(resolve_executable(&wd, false, false), b"python".to_vec());
    assert_eq!(resolve_executable(&wd, true, false), b"python.exe".to_vec());
}
