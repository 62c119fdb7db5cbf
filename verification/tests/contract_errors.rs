use storage_vector::contract::{Contract, ErrorEnum, ErrorStruct};

#[test]
fn contract_set_always_reports_the_value() {
    let contract = Contract::default();
    let err = contract.set("five".to_string()).unwrap_err();
    assert_eq!(err.message, "Could not set to five");
    assert_eq!(err.message_text(), "error ocurred: Could not set to five");
}

#[test]
fn contract_get_reports_not_found() {
    let contract = Contract::default();
    let err = contract.get().unwrap_err();
    assert!(matches!(err, ErrorEnum::NotFound));
    assert_eq!(err.message_text(), "not found");
}

#[test]
fn banned_error_names_the_account() {
    let err = ErrorEnum::Banned { account_id: "alice".to_string() };
    assert_eq!(err.message_text(), "account alice is banned");
}

#[test]
fn error_struct_renders_its_message() {
    let err = ErrorStruct { message: "boom".to_string() };
    assert_eq!(err.message_text(), "error ocurred: boom");
}
