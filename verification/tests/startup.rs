use youngl_music::startup::parse_file_args;

fn strings(items: &[&str]) -> Vec<String> {
    items.iter().map(|s| s.to_string()).collect()
}

#[test]
fn the_program_name_is_dropped() {
    assert_eq!(parse_file_args(strings(&["player", "a.mp3", "b.flac"])), strings(&["a.mp3", "b.flac"]));
    assert_eq!(parse_file_args(strings(&["player", "one.mp3"])), strings(&["one.mp3"]));
}

#[test]
fn no_files_without_arguments() {
    assert_eq!(parse_file_args(strings(&["player"])), Vec::<String>::new());
    assert_eq!(parse_file_args(Vec::new()), Vec::<String>::new());
}
