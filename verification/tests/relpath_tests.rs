use dedup::relpath::relative_path;

fn comps(parts: &[&str]) -> Vec<String> {
    parts.iter().map(|p| p.to_string()).collect()
}

/// Rebuilds the target components from the base file's directory and the
/// computed relative path, mirroring how a symlink would resolve.
fn resolve(base: &[&str], ups: usize, tail: &[String]) -> Vec<String> {
    let mut dir: Vec<String> = comps(base);
    dir.pop();
    for _ in 0..ups {
        dir.pop();
    }
    dir.extend(tail.iter().cloned());
    dir
}

#[test]
fn relative_path_across_directories() {
    // base /a/b/c/file1, target /a/x/file2: two steps up, then x/file2.
    let base = comps(&["a", "b", "c", "file1"]);
    let target = comps(&["a", "x", "file2"]);
    let r = relative_path(&base, &target);
    assert_eq!(r.ups, 2);
    assert_eq!(r.tail, comps(&["x", "file2"]));
    assert_eq!(
        resolve(&["a", "b", "c", "file1"], r.ups, &r.tail),
        comps(&["a", "x", "file2"])
    );
}

#[test]
fn relative_path_same_directory() {
    let base = comps(&["a", "b", "file1"]);
    let target = comps(&["a", "b", "file2"]);
    let r = relative_path(&base, &target);
    assert_eq!(r.ups, 0);
    assert_eq!(r.tail, comps(&["file2"]));
    assert_eq!(
        resolve(&["a", "b", "file1"], r.ups, &r.tail),
        comps(&["a", "b", "file2"])
    );
}

#[test]
fn relative_path_files_at_root() {
    let base = comps(&["file1"]);
    let target = comps(&["x", "file2"]);
    let r = relative_path(&base, &target);
    assert_eq!(r.ups, 0);
    assert_eq!(r.tail, comps(&["x", "file2"]));
    assert_eq!(resolve(&["file1"], r.ups, &r.tail), comps(&["x", "file2"]));
}

#[test]
fn relative_path_target_shallower() {
    let base = comps(&["a", "b", "c", "file1"]);
    let target = comps(&["file2"]);
    let r = relative_path(&base, &target);
    assert_eq!(r.ups, 3);
    assert_eq!(r.tail, comps(&["file2"]));
    assert_eq!(
        resolve(&["a", "b", "c", "file1"], r.ups, &r.tail),
        comps(&["file2"])
    );
}

#[test]
fn relative_path_equal_paths_is_empty() {
    let base = comps(&["a", "file"]);
    let target = comps(&["a", "file"]);
    let r = relative_path(&base, &target);
    assert_eq!(r.ups, 0);
    assert!(r.tail.is_empty());
}
