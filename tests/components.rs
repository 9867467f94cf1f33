use rq_core::components::{InputBuilder, InputType, Message, MessageDialog, SaveOption};

#[test]
fn input_builder_sets_content_and_cursor() {
    let b = InputBuilder::new(InputType::VarValue("token".to_string()));
    assert_eq!(b.content(), "");
    assert_eq!(b.cursor(), None);
    let b = b.with_content("abc".to_string()).with_cursor(2);
    assert_eq!(b.content(), "abc");
    assert_eq!(b.cursor(), Some(2));
    assert_eq!(b.typ(), &InputType::VarValue("token".to_string()));
    let f = InputBuilder::new(InputType::FileName(SaveOption::default()));
    assert_eq!(f.typ(), &InputType::FileName(SaveOption::All));
}

#[test]
fn dialog_title_names_the_kind() {
    let info = MessageDialog::new(Message::Info("saved".to_string()));
    assert_eq!(info.title(), " info ");
    assert_eq!(info.text(), "saved");
    let err = MessageDialog::new(Message::Error("failed".to_string()));
    assert_eq!(err.title(), " error ");
    assert_eq!(err.text(), "failed");
}
