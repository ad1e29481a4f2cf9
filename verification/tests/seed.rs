use config_core::seed::{seed_written, write_default_config, SeedError, SeedStep};

#[test]
fn writes_the_template_when_nothing_is_there() {
    match write_default_config(false, "dark_mode = true\n") {
        SeedStep::Write { contents } => assert_eq!(contents, "dark_mode = true\n"),
        other => panic!("unexpected {:?}", other),
    }
    assert!(seed_written(Ok(())).unwrap());
}

#[test]
fn never_clobbers_an_existing_config() {
    match write_default_config(true, "dark_mode = true\n") {
        SeedStep::Done(Ok(written)) => assert!(!written),
        other => panic!("unexpected {:?}", other),
    }
}

#[test]
fn a_failed_write_is_reported() {
    let err = std::io::Error::new(std::io::ErrorKind::PermissionDenied, "denied");
    match seed_written(Err(err)) {
        Err(SeedError::Io(e)) => assert_eq!(e.kind(), std::io::ErrorKind::PermissionDenied),
        other => panic!("unexpected {:?}", other),
    }
}

#[test]
fn the_written_template_is_valid_toml() {
    let template = "dark_mode = true\n\n[[window]]\n  title = \"Docs\"\n";
    match write_default_config(false, template) {
        SeedStep::Write { contents } => {
            assert!(contents.parse::<toml_edit::DocumentMut>().is_ok());
        }
        other => panic!("unexpected {:?}", other),
    }
}
