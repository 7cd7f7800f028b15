use rust_cxx_cmake_bridge::{
    parse_lib_path_dir_and_name, read_cmake_generated_to_output,
    read_cmake_generated_with_system_root, EmitError, LinkKind,
};

#[test]
fn test_read_cmake_generated_to_output() {
    let input = "/some/libA.a /some/libB.so";
    let mut stdout = Vec::new();
    read_cmake_generated_to_output(input, &mut stdout).unwrap();

    assert_eq!(
        std::str::from_utf8(&stdout).unwrap(),
        "cargo:rustc-link-search=native=/some\n\
        cargo:rustc-link-lib=static=A\n\
        cargo:rustc-link-search=native=/some\n\
        cargo:rustc-link-lib=dylib=B\n"
    );
}

#[test]
fn test_read_cmake_generated_to_output_system_shared_no_rustc_link_search() {
    let input = "/usr/lib/x86_64-linux-gnu/libpng16.so.16.37.0";
    let mut stdout = Vec::new();
    read_cmake_generated_to_output(input, &mut stdout).unwrap();

    assert_eq!(
        std::str::from_utf8(&stdout).unwrap(),
        "cargo:rustc-link-lib=dylib=png16\n"
    );
}

#[test]
fn test_read_cmake_generated_to_output_system_static_rustc_link_search() {
    let input = "/usr/lib/x86_64-linux-gnu/libpng16.a";
    let mut stdout = Vec::new();
    read_cmake_generated_to_output(input, &mut stdout).unwrap();

    assert_eq!(
        std::str::from_utf8(&stdout).unwrap(),
        "cargo:rustc-link-search=native=/usr/lib/x86_64-linux-gnu\n\
            cargo:rustc-link-lib=static=png16\n"
    );
}

fn emitted(input: &str) -> String {
    let mut out = Vec::new();
    read_cmake_generated_to_output(input, &mut out).unwrap();
    String::from_utf8(out).unwrap()
}

#[test]
fn a_local_shared_library_gets_a_search_path() {
    assert_eq!(
        emitted("/some/path/libfoo.so"),
        "cargo:rustc-link-search=native=/some/path\ncargo:rustc-link-lib=dylib=foo\n"
    );
}

#[test]
fn a_local_archive_gets_a_search_path() {
    assert_eq!(
        emitted("/some/path/libfoo.a"),
        "cargo:rustc-link-search=native=/some/path\ncargo:rustc-link-lib=static=foo\n"
    );
}

#[test]
fn a_system_shared_library_gets_no_search_path() {
    assert_eq!(emitted("/usr/lib/libfoo.so"), "cargo:rustc-link-lib=dylib=foo\n");
}

#[test]
fn a_system_archive_gets_a_search_path() {
    assert_eq!(
        emitted("/usr/lib/libfoo.a"),
        "cargo:rustc-link-search=native=/usr/lib\ncargo:rustc-link-lib=static=foo\n"
    );
}

#[test]
fn a_framework_gets_a_search_path() {
    assert_eq!(
        emitted("/AAA/BBB.framework"),
        "cargo:rustc-link-search=native=/AAA\ncargo:rustc-link-lib=framework=BBB\n"
    );
    assert_eq!(
        emitted("/usr/lib/BBB.framework"),
        "cargo:rustc-link-search=native=/usr/lib\ncargo:rustc-link-lib=framework=BBB\n"
    );
}

#[test]
fn the_policy_in_a_table() {
    for (path, needs, kind) in [
        ("/a/libx.so", true, LinkKind::Dylib),
        ("/a/libx.a", true, LinkKind::Static),
        ("/usr/lib/libx.so", false, LinkKind::Dylib),
        ("/usr/lib/libx.a", true, LinkKind::Static),
        ("/a/X.framework", true, LinkKind::Framework),
    ] {
        let c = parse_lib_path_dir_and_name(path).unwrap();
        assert_eq!(c.needs_search_path(), needs, "{path}");
        assert_eq!(c.link_kind(), kind, "{path}");
    }
    assert_eq!(LinkKind::Dylib.as_str(), "dylib");
    assert_eq!(LinkKind::Static.as_str(), "static");
    assert_eq!(LinkKind::Framework.as_str(), "framework");
}

#[test]
fn the_directives_of_one_record() {
    let c = parse_lib_path_dir_and_name("/a/b/libx.so.2").unwrap();
    assert_eq!(
        c.directives(),
        "cargo:rustc-link-search=native=/a/b\ncargo:rustc-link-lib=dylib=x\n"
    );
}

#[test]
fn the_order_of_the_list_is_kept() {
    let out = emitted("/a/libX.a /b/libY.so");
    assert_eq!(
        out,
        "cargo:rustc-link-search=native=/a\n\
         cargo:rustc-link-lib=static=X\n\
         cargo:rustc-link-search=native=/b\n\
         cargo:rustc-link-lib=dylib=Y\n"
    );
    let x = out.find("cargo:rustc-link-lib=static=X\n").unwrap();
    let y = out.find("cargo:rustc-link-search=native=/b\n").unwrap();
    assert!(x < y);
    assert_eq!(emitted("/a/libX.a\n/b/libY.so"), emitted("/a/libX.a") + &emitted("/b/libY.so"));
}

#[test]
fn nothing_is_reordered_or_left_out() {
    assert_eq!(
        emitted("/a/libz.a /a/liby.a /a/libz.a"),
        "cargo:rustc-link-search=native=/a\n\
         cargo:rustc-link-lib=static=z\n\
         cargo:rustc-link-search=native=/a\n\
         cargo:rustc-link-lib=static=y\n\
         cargo:rustc-link-search=native=/a\n\
         cargo:rustc-link-lib=static=z\n"
    );
}

#[test]
fn spaces_and_line_breaks_part_the_paths() {
    let expected = emitted("/a/libx.so /b/liby.a");
    assert_eq!(emitted("/a/libx.so\n/b/liby.a"), expected);
    assert_eq!(emitted("  /a/libx.so \n\n /b/liby.a\n"), expected);
    assert_eq!(emitted(""), "");
    assert_eq!(emitted(" \n \n"), "");
}

#[test]
fn a_tab_parts_nothing() {
    assert_eq!(
        emitted("/a/libx.so\t/b/liby.a"),
        "cargo:rustc-link-search=native=/a/libx.so\t/b\ncargo:rustc-link-lib=static=y\n"
    );
}

#[test]
fn the_output_is_appended() {
    let mut out = b"# before\n".to_vec();
    read_cmake_generated_to_output("/usr/lib/libm.so", &mut out).unwrap();
    assert_eq!(out, b"# before\ncargo:rustc-link-lib=dylib=m\n".to_vec());
}

#[test]
fn the_first_path_without_a_file_name_stops_the_work() {
    let mut out = Vec::new();
    let r = read_cmake_generated_to_output("/a/libx.so / /b/liby.a ..", &mut out);
    assert_eq!(r, Err(EmitError { token_index: 1 }));
    assert_eq!(
        String::from_utf8(out).unwrap(),
        "cargo:rustc-link-search=native=/a\ncargo:rustc-link-lib=dylib=x\n"
    );
    let mut out = Vec::new();
    let r = read_cmake_generated_to_output("..", &mut out);
    assert_eq!(r, Err(EmitError { token_index: 0 }));
    assert!(out.is_empty());
}

#[test]
fn the_system_root_of_the_list_can_be_chosen() {
    let mut out = Vec::new();
    read_cmake_generated_with_system_root("/opt/sys/libx.so /usr/lib/liby.so", "/opt/sys/", &mut out)
        .unwrap();
    assert_eq!(
        String::from_utf8(out).unwrap(),
        "cargo:rustc-link-lib=dylib=x\n\
         cargo:rustc-link-search=native=/usr/lib\n\
         cargo:rustc-link-lib=dylib=y\n"
    );
}

#[test]
fn text_outside_ascii_is_written_as_utf8() {
    let mut out = Vec::new();
    read_cmake_generated_to_output("/büro/libgrüße.so", &mut out).unwrap();
    assert_eq!(
        out,
        "cargo:rustc-link-search=native=/büro\ncargo:rustc-link-lib=dylib=grüße\n".as_bytes()
    );
}
