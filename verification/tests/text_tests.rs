use easy_project_finder::text::chars_of;

#[test]
fn chars_of_lists_characters_not_bytes() {
    assert_eq!(chars_of("añ😀b"), vec!['a', 'ñ', '😀', 'b']);
    assert_eq!(chars_of(""), Vec::<char>::new());
}
