use pingtest::gui::dialogs::DialogState;

#[test]
fn default_dialogs_are_closed() {
    let d = DialogState::default();
    assert!(!d.show_settings && !d.show_ip_warning && !d.show_excel_column_picker);
    assert!(!d.show_about && !d.show_error);
    assert!(d.error_title.is_empty() && d.error_message.is_empty());
    assert_eq!(d.ip_count_warning, 0);
    assert!(d.excel_columns.is_empty());
    assert_eq!(d.selected_excel_column, None);
}

#[test]
fn show_error_opens_with_text() {
    let mut d = DialogState::default();
    d.show_error("读取文件失败", "文件: a.txt");
    assert!(d.show_error);
    assert_eq!(d.error_title, "读取文件失败");
    assert_eq!(d.error_message, "文件: a.txt");
    d.dismiss_error();
    assert!(!d.show_error);
    assert_eq!(d.error_title, "读取文件失败");
}

#[test]
fn warning_answers_close_the_dialog() {
    let mut d = DialogState::default();
    d.show_ip_warning = true;
    d.ip_count_warning = 4096;
    d.confirm_ip_warning();
    assert!(d.ip_warning_confirmed && !d.show_ip_warning);
    d.show_ip_warning = true;
    d.cancel_ip_warning();
    assert!(!d.ip_warning_confirmed && !d.show_ip_warning);
    assert_eq!(d.ip_count_warning, 4096);
}

#[test]
fn column_picker_needs_a_selection() {
    let mut d = DialogState::default();
    d.show_excel_column_picker = true;
    d.excel_columns = vec![(0, "IP".to_string()), (3, "备用IP".to_string())];
    d.confirm_excel_column();
    assert!(d.show_excel_column_picker && !d.excel_column_confirmed);
    d.select_excel_column(3);
    d.confirm_excel_column();
    assert!(!d.show_excel_column_picker && d.excel_column_confirmed);
    assert_eq!(d.selected_excel_column, Some(3));
    d.show_excel_column_picker = true;
    d.cancel_excel_column_picker();
    assert!(!d.show_excel_column_picker && !d.excel_column_confirmed);
    assert_eq!(d.selected_excel_column, None);
}

#[test]
fn picker_selects_only_offered_columns() {
    let mut d = DialogState::default();
    d.show_excel_column_picker = true;
    d.excel_columns = vec![(0, "IP".to_string()), (3, "备用IP".to_string())];
    d.select_excel_column(2);
    assert_eq!(d.selected_excel_column, None);
    d.select_excel_column(0);
    assert_eq!(d.selected_excel_column, Some(0));
    d.select_excel_column(7);
    assert_eq!(d.selected_excel_column, Some(0));
    assert_eq!(d.excel_columns.len(), 2);
}

#[test]
fn closed_picker_ignores_clicks() {
    let mut d = DialogState::default();
    d.excel_columns = vec![(1, "IP".to_string())];
    d.select_excel_column(1);
    assert_eq!(d.selected_excel_column, None);
    d.selected_excel_column = Some(1);
    d.confirm_excel_column();
    assert!(!d.excel_column_confirmed);
    d.cancel_excel_column_picker();
    assert_eq!(d.selected_excel_column, Some(1));
}
