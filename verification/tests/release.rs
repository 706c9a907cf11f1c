use sdc4_validator::placeholder_info;

#[test]
fn release_line_names_the_crate() {
    assert_eq!(
        placeholder_info(),
        "sdc4-validator v0.1.0 - Placeholder release (Implementation planned Q2 2026)"
    );
}
