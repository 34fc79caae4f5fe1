use lsd_table::target::{check_target, path_error_message, PathError};

#[test]
fn missing_path_is_reported() {
    assert_eq!(check_target(false, false), Err(PathError::DoesNotExist));
    assert_eq!(
        path_error_message(PathError::DoesNotExist, "nowhere"),
        "❌ Error: Directory 'nowhere' does not exist."
    );
}

#[test]
fn regular_file_is_reported_differently() {
    assert_eq!(check_target(true, false), Err(PathError::NotADirectory));
    let m = path_error_message(PathError::NotADirectory, "Cargo.toml");
    assert_eq!(m, "❌ Error: 'Cargo.toml' is not a directory.");
    assert_ne!(m, path_error_message(PathError::DoesNotExist, "Cargo.toml"));
    assert!(!m.contains('\n'));
}

#[test]
fn directory_is_accepted() {
    assert_eq!(check_target(true, true), Ok(()));
}
