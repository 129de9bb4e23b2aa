use cyclonedds_rs::error::DDSError;

#[test]
fn lib_it_works() {
    assert_eq!(2 + 2, 4);
    assert_eq!(DDSError::DdsOk, DDSError::DdsOk);
}
