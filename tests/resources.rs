use game_core::resources::get_handle;

#[test]
fn handle_of_empty_name_is_the_offset_basis() {
    assert_eq!(get_handle(""), 0xcbf29ce484222325);
}

#[test]
fn handles_match_fnv1a() {
    assert_eq!(get_handle("a"), 0xaf63dc4c8601ec8c);
    assert_eq!(get_handle("foobar"), 0x85944171f73967e8);
    assert_ne!(get_handle("Brute"), get_handle("BruteMaterial"));
}
