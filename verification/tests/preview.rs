use reach::preview::StreamPreviews;
use reach::preview::{
    preview_base, preview_change, preview_target, source_after_stat, PartialArgs, PartialEdit,
    PreviewChange, SourceText,
};
use reach::sftp::SftpBrowserError;

#[test]
fn dirty_set_drains_each_id_once() {
    let mut p = StreamPreviews::new();
    assert!(p.take_dirty().is_empty());
    p.mark_dirty("a");
    p.mark_dirty("b");
    p.mark_dirty("a");
    let mut ids = p.take_dirty();
    ids.sort();
    assert_eq!(ids, vec!["a".to_string(), "b".to_string()]);
    assert!(p.take_dirty().is_empty());
}

#[test]
fn patched_args_sent_only_when_changed() {
    let mut p = StreamPreviews::new();
    assert!(p.note_patched("c1", "{\"path\":\"/a\"}"));
    assert!(!p.note_patched("c1", "{\"path\":\"/a\"}"));
    assert!(p.note_patched("c2", "{\"path\":\"/a\"}"));
    assert!(p.note_patched("c1", "{\"path\":\"/ab\"}"));
    assert!(!p.note_patched("c2", "{\"path\":\"/a\"}"));
}

#[test]
fn preview_source_after_stat() {
    assert!(source_after_stat(&Ok(false), false).is_none());
    assert!(matches!(source_after_stat(&Ok(true), true), Some(SourceText::Failed)));
    let missing = Err(SftpBrowserError::PathNotFound("/n".to_string()));
    assert!(matches!(source_after_stat(&missing, true), Some(SourceText::NewFile)));
    assert!(matches!(source_after_stat(&missing, false), Some(SourceText::Failed)));
    let denied = Err(SftpBrowserError::PermissionDenied("/n".to_string()));
    assert!(matches!(source_after_stat(&denied, true), Some(SourceText::Failed)));
}

fn args(keys: &[&str], path: Option<&str>, content: Option<&str>, edits: Option<Vec<PartialEdit>>) -> PartialArgs {
    PartialArgs {
        keys: keys.iter().map(|k| k.to_string()).collect(),
        path: path.map(|p| p.to_string()),
        content: content.map(|c| c.to_string()),
        edits,
    }
}

#[test]
fn preview_waits_for_a_complete_path() {
    let a = args(&["path"], Some("/etc/app.conf"), None, None);
    assert_eq!(preview_target("write_file", &a), None);
    let a = args(&["path", "content"], Some(" /etc/app.conf "), Some("hel"), None);
    assert_eq!(preview_target("write_file", &a), Some(("/etc/app.conf".to_string(), true)));
    assert_eq!(preview_target("edit_file", &a), None);
    assert_eq!(preview_target("terminal", &a), None);
    let blank = args(&["path", "edits"], Some("  "), None, Some(vec![]));
    assert_eq!(preview_target("edit_file", &blank), None);
}

#[test]
fn preview_change_takes_complete_edits_only() {
    let a = args(&["path", "content"], Some("/f"), Some("partial"), None);
    assert!(matches!(preview_change(true, &a), Some(PreviewChange::Write(ref c)) if c == "partial"));
    let edits = vec![
        PartialEdit { old_text: Some("a".to_string()), new_text: Some("b".to_string()) },
        PartialEdit { old_text: Some("c".to_string()), new_text: None },
    ];
    let a = args(&["path", "edits"], Some("/f"), None, Some(edits));
    match preview_change(false, &a) {
        Some(PreviewChange::Edit(es)) => {
            assert_eq!(es.len(), 1);
            assert_eq!((es[0].old_text.as_str(), es[0].new_text.as_str()), ("a", "b"));
        }
        _ => panic!("expected one edit"),
    }
    let none = args(&["path", "edits"], Some("/f"), None, Some(vec![PartialEdit { old_text: None, new_text: None }]));
    assert!(preview_change(false, &none).is_none());
}

#[test]
fn preview_base_from_source() {
    assert_eq!(preview_base(&SourceText::Existing("x\n".to_string())), Some(("x\n".to_string(), false)));
    assert_eq!(preview_base(&SourceText::NewFile), Some((String::new(), true)));
    assert_eq!(preview_base(&SourceText::Failed), None);
}

#[test]
fn preview_sent_only_when_it_changes() {
    let mut p = StreamPreviews::new();
    assert!(p.note_patched("c1", "{\"path\":\"/a\"}"));
    assert!(p.note_preview("c1", "preview-1"));
    assert!(!p.note_preview("c1", "preview-1"));
    assert!(p.note_preview("c1", "preview-2"));
    // Previews and patched arguments are tracked apart, per call.
    assert!(!p.note_patched("c1", "{\"path\":\"/a\"}"));
    assert!(p.note_preview("c2", "preview-1"));
}
