use cliff::bridge::{bind_recovery, BindAction, BindErrorKind, OutboundWriter};
use cliff::Project;
use cliff::Value;

#[test]
fn it_works() {
    assert_eq!(2 + 2, 4);
}

#[test]
fn lib_can_create_project_test() {
    let project = Project {
        id: 1,
        name: String::from("Project"),
        description: String::from("A sample project"),
    };

    assert_eq!(project.name, "Project");
    assert_eq!(project.description, "A sample project");
}

#[test]
fn mod_can_create_project_test() {
    let project = Project {
        id: 1,
        name: String::from("Project"),
        description: String::from("A sample project"),
    };

    assert_eq!(project.name, "Project");
    assert_eq!(project.description, "A sample project");
}

#[test]
fn outbound_writer_retries_until_flushed() {
    let mut writer = OutboundWriter::new(&Value::Str(b"hello".to_vec()));
    assert_eq!(writer.remaining(), &[0xa5, b'h', b'e', b'l', b'l', b'o']);
    assert!(!writer.is_done());

    // A partial write: only two bytes went out.
    writer.advance(2);
    assert_eq!(writer.remaining(), &[b'e', b'l', b'l', b'o']);
    assert!(!writer.is_done());

    writer.advance(4);
    assert!(writer.is_done());
    assert_eq!(writer.remaining(), &[] as &[u8]);
}

#[test]
fn only_address_in_use_is_retried() {
    assert_eq!(
        bind_recovery(&BindErrorKind::AddrInUse),
        BindAction::RemoveStaleAndRetry
    );
    assert_eq!(bind_recovery(&BindErrorKind::Other), BindAction::Fail);
}
