use rust_kart::cargo_norm::{bin_name, find_src_bin_dir_name};

fn parts(path: &str) -> Vec<String> {
    let mut v = vec!["/".to_string()];
    v.extend(path.split('/').filter(|s| !s.is_empty()).map(String::from));
    v
}

#[test]
fn converts_files_to_bin_names() {
    for (want, arg) in [
        ("alpha", "tests/data/src/bin/alpha.rs"),
        ("beta", "tests/data/src/bin/beta/main.rs"),
        ("beta", "tests/data/src/bin/beta/gamma.rs"),
        ("beta", "tests/data/src/bin/beta/delta/epsilon.rs"),
        ("data", "tests/data/src/bin/main.rs"),
        ("data", "tests/data/src/main.rs"),
    ] {
        let got = bin_name(&parts(&format!("/home/u/cargo-norm/{arg}")));
        assert_eq!(Some(want.to_string()), got);
    }
}

#[test]
fn files_outside_src_have_no_bin_name() {
    assert_eq!(bin_name(&parts("/home/u/proj/README.md")), None);
    assert_eq!(bin_name(&parts("/home/u/proj/src/lib.rs")), None);
    assert_eq!(bin_name(&parts("/src/bin")), None);
}

#[test]
fn bin_dir_is_found_from_the_end() {
    assert_eq!(
        find_src_bin_dir_name(&parts("/p/src/bin/outer/src/bin/inner/x/y.rs")),
        Some("inner".to_string())
    );
    assert_eq!(find_src_bin_dir_name(&parts("/src/bin/x")), None);
}
