use strata::rocm::{
    first_present, hip_sdk_root, interpreter, is_vendored, read_gfx, read_torch, sdk_search_paths,
    SdkDir,
};

#[test]
fn the_first_place_that_holds_it() {
    assert_eq!(first_present(&[false, true, true]), 1);
    assert_eq!(first_present(&[false, false]), 0);
    assert_eq!(first_present(&[]), 0);
}

#[test]
fn the_toolchain_beside_the_program_wins() {
    assert_eq!(hip_sdk_root("v", true, Some("e")), "v");
    assert_eq!(hip_sdk_root("v", false, Some("e")), "e");
    assert_eq!(hip_sdk_root("v", false, None), "v");
    assert!(is_vendored(true, true));
    assert!(!is_vendored(false, false));
    assert!(!is_vendored(false, true));
}

#[test]
fn an_interpreter_that_is_named_is_used() {
    assert_eq!(interpreter(Some(1), Some(2)), Some(1));
    assert_eq!(interpreter(None, Some(2)), Some(2));
    assert_eq!(interpreter::<u8>(None, None), None);
}

#[test]
fn three_lines_tell_the_toolchain() {
    let t = read_torch(" RX 7600 \r\n6.4\n2.8.0\nmore\n");
    assert_eq!(t.device_name.as_deref(), Some("RX 7600"));
    assert_eq!(t.hip_version.as_deref(), Some("6.4"));
    assert_eq!(t.torch_version.as_deref(), Some("2.8.0"));
    // Empty lines are unknown, but for the last.
    let t = read_torch("\n\n\n");
    assert_eq!((t.device_name, t.hip_version), (None, None));
    assert_eq!(t.torch_version.as_deref(), Some(""));
    assert!(read_torch("").torch_version.is_none());
}

#[test]
fn a_target_is_left_unknown_rather_than_guessed() {
    assert_eq!(read_gfx(" gfx1102\r\n").as_deref(), Some("gfx1102"));
    assert_eq!(read_gfx("unknown gfx1102"), None);
    assert_eq!(read_gfx(""), None);
}

#[test]
fn directories_with_the_library_are_searched_once() {
    let d = |id: usize, has_library: bool| SdkDir { id, has_library };
    assert_eq!(sdk_search_paths(&[d(7, true), d(3, false), d(7, true), d(4, true)]), vec![0, 3]);
    assert_eq!(sdk_search_paths(&[]), Vec::<usize>::new());
}
