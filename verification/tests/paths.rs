use pvsched_qos::path::{join, resolve_cgroup_paths, split_file_name};
use std::path::Path;

fn all_paths(alphabet: &[&str], parts: usize) -> Vec<String> {
    let mut paths = vec![String::new()];
    let mut last = paths.clone();
    for _ in 0..parts {
        let mut next = Vec::new();
        for p in &last {
            for a in alphabet {
                next.push(format!("{p}{a}"));
            }
        }
        paths.extend(next.clone());
        last = next;
    }
    paths
}

#[test]
fn names_and_directories_are_those_of_the_standard_library() {
    for p in all_paths(&["/", ".", "a"], 7) {
        let path = Path::new(&p);
        let expected = path
            .file_name()
            .map(|name| (path.parent().unwrap().to_str().unwrap(), name.to_str().unwrap()));
        assert_eq!(split_file_name(&p), expected, "{p:?}");
    }
}

#[test]
fn joining_is_that_of_the_standard_library() {
    for p in all_paths(&["/", ".", "a"], 5) {
        assert_eq!(join(&p, "cpu.pressure"), Path::new(&p).join("cpu.pressure").to_str().unwrap());
    }
}

#[test]
fn cgroup_paths_are_resolved() {
    let pair = |dir: &str, file: &str| (dir.to_string(), file.to_string());
    assert_eq!(
        resolve_cgroup_paths("/sys/fs/cgroup/gnuradio"),
        pair("/sys/fs/cgroup/gnuradio", "/sys/fs/cgroup/gnuradio/cpu.pressure")
    );
    assert_eq!(
        resolve_cgroup_paths("/sys/fs/cgroup/x/cpu.pressure"),
        pair("/sys/fs/cgroup/x", "/sys/fs/cgroup/x/cpu.pressure")
    );
    assert_eq!(resolve_cgroup_paths("cpu.pressure"), pair("", "cpu.pressure"));
    assert_eq!(resolve_cgroup_paths("/cpu.pressure"), pair("/", "/cpu.pressure"));
    assert_eq!(resolve_cgroup_paths("a//./cpu.pressure/"), pair("a", "a//./cpu.pressure/"));
    assert_eq!(resolve_cgroup_paths("/"), pair("/", "/cpu.pressure"));
    assert_eq!(resolve_cgroup_paths(""), pair("", "cpu.pressure"));
    assert_eq!(resolve_cgroup_paths("a/.."), pair("a/..", "a/../cpu.pressure"));
}

#[test]
fn directory_and_file_lead_to_the_same_files() {
    for p in all_paths(&["/", ".", "a", "cpu.pressure"], 4) {
        let (dir, file) = resolve_cgroup_paths(&p);
        if dir == p {
            let (again_dir, again_file) = resolve_cgroup_paths(&file);
            assert_eq!(again_file, file);
            assert_eq!(Path::new(&again_dir), Path::new(&dir));
        }
    }
}
