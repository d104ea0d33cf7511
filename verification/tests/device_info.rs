use sway::device_info::{default_device_name, names_a_device};

#[test]
fn default_name_is_never_empty_and_never_a_placeholder_on_desktop() {
    let name = default_device_name(&[None, None, None], false);
    assert!(!name.is_empty());
    assert_ne!(name, "Android");
}

#[test]
fn the_first_variable_that_is_set_names_the_device() {
    let some = |s: &str| Some(s.to_string());
    assert_eq!(default_device_name(&[None, some("  STUDIO \n"), some("other")], false), "STUDIO");
    // One that says nothing does not give way to the next.
    assert_eq!(default_device_name(&[some("localhost"), some("other")], false), "Sway");
    assert_eq!(default_device_name(&[some("   ")], true), "Android");
    assert!(names_a_device("Pixel 8"));
    assert!(!names_a_device(""));
    assert!(!names_a_device("Sway"));
}
