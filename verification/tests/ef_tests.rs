use hsmtool::ef::{EfError, Export, Import};
use hsmtool::envelope::ElementaryFileEnvelope;
use std::path::PathBuf;

fn export() -> Export {
    Export {
        label: "seed".to_string(),
        application: None,
        wrapping_key: "kek".to_string(),
        aes_module: None,
        pin: None,
        filename: PathBuf::from("out.bin"),
    }
}

#[test]
fn export_requires_a_match() {
    let r = export().select_file(Vec::<u32>::new());
    assert_eq!(r, Err(EfError::ObjectNotFound("seed".to_string())));
}

#[test]
fn export_rejects_several_matches() {
    let r = export().select_file(vec![1u32, 2, 3]);
    assert_eq!(r, Err(EfError::TooManyObjects(3, "seed".to_string())));
}

#[test]
fn export_takes_the_single_match() {
    let r = export().select_file(vec![7u32]);
    assert_eq!(r, Ok(7));
}

#[test]
fn import_refuses_existing_label() {
    let envelope = ElementaryFileEnvelope::new("seed".to_string(), None, true, &[1, 2]);
    assert_eq!(
        Import::check_target_free(&envelope, true),
        Err(EfError::AlreadyExists("seed".to_string()))
    );
    assert_eq!(Import::check_target_free(&envelope, false), Ok(()));
}
