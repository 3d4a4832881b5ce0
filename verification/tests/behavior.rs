use edmv::confirm::classify_answer;
use edmv::confirm::resolve_editor;
use edmv::confirm::Answer;
use edmv::diff::apply_confirmation;
use edmv::diff::compare;
use edmv::diff::compare_strict;
use edmv::diff::delete_action;
use edmv::diff::DeleteAction;
use edmv::paths::canon_path;
use edmv::paths::parent_dir;
use edmv::session::display_path;
use edmv::session::render_buffer;
use edmv::session::split_lines;

fn svec(xs: &[&str]) -> Vec<String> {
    xs.iter().map(|s| s.to_string()).collect()
}

#[test]
fn unchanged_input_yields_empty_changeset() {
    let orig = svec(&["a.txt", "b.txt"]);
    let edited = svec(&["./a.txt", "b.txt"]);
    let cs = compare(&orig, &edited, "/work");
    assert!(cs.moves.is_empty());
    assert!(cs.deletes.is_empty());
    assert!(cs.is_empty());
}

#[test]
fn empty_line_deletes_regardless_of_kind() {
    let orig = svec(&["some_dir/", "plain.txt"]);
    let edited = svec(&["", ""]);
    let cs = compare(&orig, &edited, "/work");
    assert!(cs.moves.is_empty());
    assert_eq!(cs.deletes, svec(&["some_dir/", "plain.txt"]));
}

#[test]
fn canon_is_idempotent_on_concrete_paths() {
    let once = canon_path("/w", "x/../y/./z");
    let twice = canon_path("/w", &once);
    assert_eq!(once, twice);
    assert_eq!(once, "/w/y/z");
}

#[test]
fn canon_ignores_leading_dot_segment() {
    assert_eq!(canon_path("/w", "./a"), canon_path("/w", "a"));
    assert_eq!(canon_path("/w", "./a"), "/w/a");
}

#[test]
fn canon_cleans_joined_paths() {
    assert_eq!(canon_path("/w", "a//b"), "/w/a/b");
    assert_eq!(canon_path("/w", "../x"), "/x");
    assert_eq!(canon_path("/w", "/abs/./p"), "/abs/p");
    assert_eq!(canon_path("/w", ""), "/w");
    assert_eq!(canon_path("/", ".."), "/");
    assert_eq!(canon_path("/w", "a/.."), "/w");
}

#[test]
fn canon_handles_multibyte_characters() {
    assert_eq!(canon_path("/w", "fö/../bär"), "/w/bär");
    let paths = svec(&["bär"]);
    let dirs = vec![false];
    let buffer = render_buffer(&paths, &dirs, false, "/w");
    assert_eq!(split_lines(&buffer), svec(&["bär", ""]));
}

#[test]
fn rename_of_second_entry_is_one_move() {
    let orig = svec(&["a.txt", "b.txt"]);
    let edited = svec(&["a.txt", "c.txt"]);
    let cs = compare(&orig, &edited, "/work");
    assert_eq!(cs.moves, vec![("b.txt".to_string(), "c.txt".to_string())]);
    assert!(cs.deletes.is_empty());
}

#[test]
fn emptied_single_line_is_a_deletion() {
    let orig = svec(&["a.txt"]);
    let edited = svec(&[""]);
    let cs = compare(&orig, &edited, "/work");
    assert!(cs.moves.is_empty());
    assert_eq!(cs.deletes, svec(&["a.txt"]));
}

#[test]
fn unchanged_directory_line_changes_nothing() {
    let orig = svec(&["dir/"]);
    let edited = svec(&["dir/"]);
    let cs = compare(&orig, &edited, "/work");
    assert!(cs.is_empty());
}

#[test]
fn missing_trailing_line_is_a_deletion() {
    let orig = svec(&["a.txt", "b.txt"]);
    let edited = svec(&["a.txt"]);
    let cs = compare(&orig, &edited, "/work");
    assert!(cs.moves.is_empty());
    assert_eq!(cs.deletes, svec(&["b.txt"]));
}

#[test]
fn strict_variant_rejects_length_mismatch() {
    let orig = svec(&["a.txt", "b.txt"]);
    let edited = svec(&["a.txt"]);
    match compare_strict(&orig, &edited, "/work") {
        Ok(_) => panic!("length mismatch must be refused"),
        Err(e) => {
            assert_eq!(e.originals, 2);
            assert_eq!(e.edited, 1);
        }
    }
}

#[test]
fn strict_variant_accepts_equal_lengths() {
    let orig = svec(&["a.txt", "b.txt"]);
    let edited = svec(&["a.txt", "c.txt"]);
    let cs = compare_strict(&orig, &edited, "/work").unwrap();
    assert_eq!(cs.moves, vec![("b.txt".to_string(), "c.txt".to_string())]);
    assert!(cs.deletes.is_empty());
}

#[test]
fn declining_confirmation_discards_all_operations() {
    let orig = svec(&["a.txt"]);
    let edited = svec(&["b.txt"]);
    let cs = compare(&orig, &edited, "/work");
    assert!(!cs.is_empty());
    let kept = apply_confirmation(cs, false);
    assert!(kept.moves.is_empty());
    assert!(kept.deletes.is_empty());
}

#[test]
fn confirming_keeps_all_operations() {
    let orig = svec(&["a.txt"]);
    let edited = svec(&["b.txt"]);
    let cs = compare(&orig, &edited, "/work");
    let kept = apply_confirmation(cs, true);
    assert_eq!(kept.moves, vec![("a.txt".to_string(), "b.txt".to_string())]);
}

#[test]
fn answers_classify_as_typed() {
    assert_eq!(classify_answer("y\n"), Answer::Yes);
    assert_eq!(classify_answer("  Y  "), Answer::Yes);
    assert_eq!(classify_answer("n\n"), Answer::No);
    assert_eq!(classify_answer("N"), Answer::No);
    assert_eq!(classify_answer(""), Answer::No);
    assert_eq!(classify_answer("\n"), Answer::No);
    assert_eq!(classify_answer("maybe"), Answer::Undecided);
    assert_eq!(classify_answer("yes"), Answer::Undecided);
}

#[test]
fn editor_resolution_follows_precedence() {
    let flag = Some("helix".to_string());
    let env = Some("vim".to_string());
    assert_eq!(resolve_editor(flag, env), "helix");
    assert_eq!(resolve_editor(None, Some("vim".to_string())), "vim");
    assert_eq!(resolve_editor(None, None), "nano");
}

#[test]
fn display_path_marks_directories_and_resolves() {
    assert_eq!(display_path(&"a.txt".to_string(), false, false, "/w"), "a.txt");
    assert_eq!(display_path(&"a.txt".to_string(), true, false, "/w"), "/w/a.txt");
    assert_eq!(display_path(&"d".to_string(), false, true, "/w"), "d/");
    assert_eq!(display_path(&"d/".to_string(), false, true, "/w"), "d/");
    assert_eq!(display_path(&"./d".to_string(), true, true, "/w"), "/w/d/");
}

#[test]
fn buffer_renders_one_line_per_path() {
    let paths = svec(&["a", "b"]);
    let dirs = vec![false, true];
    assert_eq!(render_buffer(&paths, &dirs, false, "/w"), "a\nb/\n");
}

#[test]
fn split_keeps_empty_lines() {
    assert_eq!(split_lines("a\nb\n"), svec(&["a", "b", ""]));
    assert_eq!(split_lines(""), svec(&[""]));
    assert_eq!(split_lines("a\n\nc"), svec(&["a", "", "c"]));
}

#[test]
fn rendered_buffer_splits_back_into_its_lines() {
    let paths = svec(&["a", "b"]);
    let dirs = vec![false, false];
    let buffer = render_buffer(&paths, &dirs, false, "/w");
    assert_eq!(split_lines(&buffer), svec(&["a", "b", ""]));
}

#[test]
fn parent_dir_names_what_must_exist() {
    assert_eq!(parent_dir("a/b/c"), Some("a/b".to_string()));
    assert_eq!(parent_dir("c.txt"), None);
    assert_eq!(parent_dir("/x"), Some("/".to_string()));
    assert_eq!(parent_dir("a/b/"), Some("a".to_string()));
    assert_eq!(parent_dir("/"), None);
    assert_eq!(parent_dir("nested/dir/file.txt"), Some("nested/dir".to_string()));
}

#[test]
fn delete_action_follows_path_kind() {
    assert_eq!(delete_action(true, false), DeleteAction::RemoveTree);
    assert_eq!(delete_action(true, true), DeleteAction::RemoveTree);
    assert_eq!(delete_action(false, true), DeleteAction::RemoveFile);
    assert_eq!(delete_action(false, false), DeleteAction::Skip);
}
