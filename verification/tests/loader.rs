use wakformat_loader::args::{parse_args, ArgError};
use wakformat_loader::loader::WakFormatLoader;

fn keep_all(_: u8) -> bool {
    true
}

fn keep_odd(x: u8) -> bool {
    x % 2 == 1
}

fn strings(texts: &[&str]) -> Vec<String> {
    texts.iter().map(|t| t.to_string()).collect()
}

#[test]
fn one_file_loader_holds_its_settings() {
    let loader = WakFormatLoader::new("games.wf", 1024, 4, keep_odd as fn(u8) -> bool);
    assert_eq!(loader.file_paths(), &strings(&["games.wf"]));
    assert_eq!(loader.buffer_size(), 16_777_216);
    assert_eq!(loader.threads(), 4);
    assert!(loader.filter()(3));
    assert!(!loader.filter()(4));
}

#[test]
fn several_files_stay_in_order() {
    let loader = WakFormatLoader::new_concat_multiple(&["b.wf", "a.wf", "b.wf"], 1, 0, keep_all);
    assert_eq!(loader.file_paths(), &strings(&["b.wf", "a.wf", "b.wf"]));
    assert_eq!(loader.buffer_size(), 16_384);
    assert_eq!(loader.threads(), 0);
}

#[test]
fn no_files_and_no_memory() {
    let loader = WakFormatLoader::new_concat_multiple(&[], 0, 2, ());
    assert!(loader.file_paths().is_empty());
    assert_eq!(loader.buffer_size(), 0);
}

#[test]
fn two_buffers_fill_the_memory_that_was_asked_for() {
    for mb in [0usize, 1, 3, 7, 100, 1024] {
        let loader = WakFormatLoader::new("x", mb, 1, ());
        let board = std::mem::size_of::<bulletformat::ChessBoard>();
        assert_eq!(loader.buffer_size() * board * 2, mb * 1024 * 1024);
    }
}

#[test]
fn a_cloned_loader_has_the_same_settings() {
    let loader = WakFormatLoader::new_concat_multiple(&["a", "b"], 2, 3, keep_odd as fn(u8) -> bool);
    let copy = loader.clone();
    assert_eq!(copy.file_paths(), loader.file_paths());
    assert_eq!(copy.buffer_size(), 32_768);
    assert_eq!(copy.threads(), 3);
    assert!(copy.filter()(5));
    assert!(!copy.filter()(6));
}

#[test]
fn channels_grow_with_the_workers() {
    let lengths = WakFormatLoader::new("x", 1, 6, ()).queue_lengths();
    assert_eq!((lengths.games, lengths.boards, lengths.batches, lengths.stops), (4, 24, 0, 1));
}

#[test]
fn command_line_with_files_only() {
    let asked = parse_args(&strings(&["a.wf", "-x", "b.wf"])).ok().unwrap();
    assert_eq!(asked.net_id, None);
    assert_eq!(asked.paths, strings(&["a.wf", "-x", "b.wf"]));
}

#[test]
fn command_line_with_a_name() {
    let asked = parse_args(&strings(&["a.wf", "--name", "net", "b.wf"])).ok().unwrap();
    assert_eq!(asked.net_id, Some("net".to_string()));
    assert_eq!(asked.paths, strings(&["a.wf", "b.wf"]));
}

#[test]
fn the_last_name_counts() {
    let asked = parse_args(&strings(&["--name", "x", "--name", "y", "a"])).ok().unwrap();
    assert_eq!(asked.net_id, Some("y".to_string()));
}

#[test]
fn a_name_must_follow_the_name_option() {
    for args in [&["a", "--name"][..], &["a", "--name", ""][..], &["a", "--name", "--x"][..]] {
        assert!(matches!(parse_args(&strings(args)), Err(ArgError::MissingName)));
    }
}

#[test]
fn other_options_are_refused() {
    match parse_args(&strings(&["a", "--names", "b"])) {
        Err(ArgError::UnknownOption(text)) => assert_eq!(text, "--names"),
        _ => panic!("expected a refusal"),
    }
    match parse_args(&strings(&["--", "a"])) {
        Err(ArgError::UnknownOption(text)) => assert_eq!(text, "--"),
        _ => panic!("expected a refusal"),
    }
}

#[test]
fn a_file_must_be_given() {
    assert!(matches!(parse_args(&Vec::new()), Err(ArgError::NoPaths)));
    assert!(matches!(parse_args(&strings(&["--name", "net"])), Err(ArgError::NoPaths)));
}
