use pz_tags::color::{is_color_code_str, validate_color};
use pz_tags::model::{Tag, TagAssociation, TagTarget, TagsDatabase, TagsError};
use pz_tags::tags::{
    add_tags_to_backup, add_tags_to_save, create_tag, delete_tag, find_association_mut,
    get_all_tags, get_backup_tags, get_save_tags, remove_tags_from_backup, remove_tags_from_save,
};

fn names(v: &[&str]) -> Vec<String> {
    v.iter().map(|s| s.to_string()).collect()
}

#[test]
fn test_validate_color_valid() {
    assert!(validate_color("#FF5733").is_ok());
    assert!(validate_color("#F53").is_ok());
    assert!(validate_color("#FF5733AA").is_ok());
    assert!(validate_color("#abc").is_ok());
}

#[test]
fn test_validate_color_invalid() {
    assert!(validate_color("FF5733").is_err()); // Missing #
    assert!(validate_color("#FF5").is_ok()); // Three digits: the #RGB form
    assert!(validate_color("#FF57333").is_err()); // Invalid length
    assert!(validate_color("#GG5733").is_err()); // Invalid hex
}

#[test]
fn test_tags_database_default() {
    let db = TagsDatabase::default();
    assert_eq!(db.tags.len(), 0);
    assert_eq!(db.associations.len(), 0);
}

#[test]
fn test_create_and_get_tag() {
    let mut db = TagsDatabase::default();
    let result = create_tag(&mut db, "important".to_string(), "#FF0000".to_string());
    assert!(result.is_ok());

    let tags = get_all_tags(&db);
    assert_eq!(tags.len(), 1);
    assert_eq!(tags[0].name, "important");
    assert_eq!(tags[0].color, "#FF0000");
}

#[test]
fn test_create_duplicate_tag_fails() {
    let mut db = TagsDatabase::default();
    let _ = create_tag(&mut db, "test".to_string(), "#FF0000".to_string());
    let result = create_tag(&mut db, "test".to_string(), "#00FF00".to_string());
    assert!(matches!(result, Err(TagsError::DuplicateTag(_))));
}

#[test]
fn test_delete_tag() {
    let mut db = TagsDatabase::default();
    let _ = create_tag(&mut db, "to_delete".to_string(), "#FF0000".to_string());
    assert_eq!(get_all_tags(&db).len(), 1);

    let result = delete_tag(&mut db, "to_delete".to_string());
    assert!(result.is_ok());
    assert_eq!(get_all_tags(&db).len(), 0);
}

#[test]
fn test_delete_nonexistent_tag_fails() {
    let mut db = TagsDatabase::default();
    let result = delete_tag(&mut db, "nonexistent".to_string());
    assert!(matches!(result, Err(TagsError::TagNotFound(_))));
}

#[test]
fn test_add_and_get_backup_tags() {
    let mut db = TagsDatabase::default();
    let _ = create_tag(&mut db, "important".to_string(), "#FF0000".to_string());
    let _ = create_tag(&mut db, "test".to_string(), "#00FF00".to_string());

    let result = add_tags_to_backup(
        &mut db,
        "Survival",
        "backup1.tar.gz",
        vec!["important".to_string(), "test".to_string()],
    );
    assert!(result.is_ok());

    let tags = get_backup_tags(&db, "Survival", "backup1.tar.gz");
    assert_eq!(tags.len(), 2);
}

#[test]
fn test_add_and_get_save_tags() {
    let mut db = TagsDatabase::default();
    let _ = create_tag(&mut db, "main".to_string(), "#0000FF".to_string());

    let result = add_tags_to_save(&mut db, "Survival/MySave", vec!["main".to_string()]);
    assert!(result.is_ok());

    let tags = get_save_tags(&db, "Survival/MySave");
    assert_eq!(tags.len(), 1);
    assert_eq!(tags[0].name, "main");
}

#[test]
fn test_remove_backup_tags() {
    let mut db = TagsDatabase::default();
    let _ = create_tag(&mut db, "tag1".to_string(), "#FF0000".to_string());
    let _ = create_tag(&mut db, "tag2".to_string(), "#00FF00".to_string());

    let _ = add_tags_to_backup(
        &mut db,
        "Survival",
        "backup1.tar.gz",
        vec!["tag1".to_string(), "tag2".to_string()],
    );

    remove_tags_from_backup(&mut db, "Survival", "backup1.tar.gz", vec!["tag1".to_string()]);

    let tags = get_backup_tags(&db, "Survival", "backup1.tar.gz");
    assert_eq!(tags.len(), 1);
    assert_eq!(tags[0].name, "tag2");
}

#[test]
fn test_remove_save_tags() {
    let mut db = TagsDatabase::default();
    let _ = create_tag(&mut db, "tag1".to_string(), "#FF0000".to_string());
    let _ = create_tag(&mut db, "tag2".to_string(), "#00FF00".to_string());

    let _ = add_tags_to_save(
        &mut db,
        "Survival/MySave",
        vec!["tag1".to_string(), "tag2".to_string()],
    );

    remove_tags_from_save(&mut db, "Survival/MySave", vec!["tag1".to_string()]);

    let tags = get_save_tags(&db, "Survival/MySave");
    assert_eq!(tags.len(), 1);
    assert_eq!(tags[0].name, "tag2");
}

#[test]
fn color_table() {
    for ok in ["#FF5733", "#F53", "#FF5", "#FF5733AA", "#abcdef", "#0a0B0c"] {
        assert!(validate_color(ok).is_ok(), "{ok}");
    }
    for bad in ["FF5733", "#FF55", "#FF57333", "#GG5733", "", "#", "##FF573"] {
        assert_eq!(validate_color(bad), Err(TagsError::InvalidColor(bad.to_string())));
    }
}

#[test]
fn color_is_checked_after_trimming() {
    assert!(validate_color("  #FF5733\n").is_ok());
    assert!(!is_color_code_str("  #FF5733\n"));
    assert!(is_color_code_str("#FF5733"));
    let mut db = TagsDatabase::default();
    assert!(create_tag(&mut db, "t".to_string(), " #ABC ".to_string()).is_ok());
    assert_eq!(db.tags[0].color, "#ABC");
}

#[test]
fn invalid_color_reports_the_input_and_changes_nothing() {
    let mut db = TagsDatabase::default();
    let r = create_tag(&mut db, "t".to_string(), " #GG ".to_string());
    assert_eq!(r, Err(TagsError::InvalidColor(" #GG ".to_string())));
    assert!(db.tags.is_empty());
}

#[test]
fn duplicate_leaves_tags_unchanged() {
    let mut db = TagsDatabase::default();
    create_tag(&mut db, "a".to_string(), "#111".to_string()).unwrap();
    create_tag(&mut db, "b".to_string(), "#222".to_string()).unwrap();
    let r = create_tag(&mut db, "a".to_string(), "#333".to_string());
    assert_eq!(r, Err(TagsError::DuplicateTag("a".to_string())));
    let all = get_all_tags(&db);
    assert_eq!(
        all,
        vec![
            Tag { name: "a".to_string(), color: "#111".to_string() },
            Tag { name: "b".to_string(), color: "#222".to_string() },
        ]
    );
}

#[test]
fn cascading_delete_prunes_association() {
    let mut db = TagsDatabase::default();
    create_tag(&mut db, "t".to_string(), "#FFF".to_string()).unwrap();
    add_tags_to_backup(&mut db, "S", "B", names(&["t"])).unwrap();
    assert_eq!(db.associations.len(), 1);
    delete_tag(&mut db, "t".to_string()).unwrap();
    assert!(get_all_tags(&db).iter().all(|t| t.name != "t"));
    assert!(get_backup_tags(&db, "S", "B").is_empty());
    assert!(db.associations.is_empty());
}

#[test]
fn delete_keeps_other_names_in_order() {
    let mut db = TagsDatabase::default();
    for n in ["a", "b", "c"] {
        create_tag(&mut db, n.to_string(), "#000".to_string()).unwrap();
    }
    add_tags_to_save(&mut db, "p", names(&["c", "b", "a"])).unwrap();
    add_tags_to_save(&mut db, "q", names(&["b"])).unwrap();
    delete_tag(&mut db, "b".to_string()).unwrap();
    assert_eq!(db.associations.len(), 1);
    assert_eq!(db.associations[0].tag_names, names(&["c", "a"]));
    let got: Vec<String> = get_save_tags(&db, "p").into_iter().map(|t| t.name).collect();
    assert_eq!(got, names(&["c", "a"]));
}

#[test]
fn add_is_all_or_nothing() {
    let mut db = TagsDatabase::default();
    create_tag(&mut db, "important".to_string(), "#F00".to_string()).unwrap();
    let r = add_tags_to_backup(&mut db, "S", "B", names(&["important", "missing", "other"]));
    assert_eq!(r, Err(TagsError::TagNotFound("missing".to_string())));
    assert!(get_backup_tags(&db, "S", "B").is_empty());
    assert!(db.associations.is_empty());
}

#[test]
fn adding_twice_keeps_one_occurrence() {
    let mut db = TagsDatabase::default();
    create_tag(&mut db, "x".to_string(), "#123".to_string()).unwrap();
    create_tag(&mut db, "y".to_string(), "#456".to_string()).unwrap();
    add_tags_to_save(&mut db, "p", names(&["x"])).unwrap();
    add_tags_to_save(&mut db, "p", names(&["x", "y", "x"])).unwrap();
    add_tags_to_save(&mut db, "p", names(&["y"])).unwrap();
    assert_eq!(db.associations.len(), 1);
    assert_eq!(db.associations[0].tag_names, names(&["x", "y"]));
    assert_eq!(get_save_tags(&db, "p").len(), 2);
    add_tags_to_backup(&mut db, "S", "B", names(&["x"])).unwrap();
    add_tags_to_backup(&mut db, "S", "B", names(&["x"])).unwrap();
    assert_eq!(get_backup_tags(&db, "S", "B").len(), 1);
}

#[test]
fn adding_no_names_changes_nothing() {
    let mut db = TagsDatabase::default();
    assert!(add_tags_to_save(&mut db, "p", Vec::new()).is_ok());
    assert!(db.associations.is_empty());
}

#[test]
fn lenient_remove() {
    let mut db = TagsDatabase::default();
    remove_tags_from_save(&mut db, "nonexistent/path", names(&["x"]));
    assert!(db.associations.is_empty());
    create_tag(&mut db, "a".to_string(), "#000".to_string()).unwrap();
    add_tags_to_save(&mut db, "p", names(&["a"])).unwrap();
    remove_tags_from_save(&mut db, "p", names(&["never", "attached"]));
    assert_eq!(db.associations[0].tag_names, names(&["a"]));
    remove_tags_from_backup(&mut db, "S", "B", names(&["a"]));
    assert_eq!(db.associations.len(), 1);
}

#[test]
fn remove_last_name_prunes_association() {
    let mut db = TagsDatabase::default();
    create_tag(&mut db, "a".to_string(), "#000".to_string()).unwrap();
    add_tags_to_backup(&mut db, "S", "B", names(&["a"])).unwrap();
    add_tags_to_save(&mut db, "p", names(&["a"])).unwrap();
    remove_tags_from_backup(&mut db, "S", "B", names(&["a"]));
    assert_eq!(db.associations.len(), 1);
    assert!(matches!(db.associations[0].target, TagTarget::Save { .. }));
    assert_eq!(get_save_tags(&db, "p").len(), 1);
}

#[test]
fn dangling_names_are_skipped() {
    let db = TagsDatabase {
        tags: vec![
            Tag { name: "a".to_string(), color: "#000".to_string() },
            Tag { name: "c".to_string(), color: "#111".to_string() },
        ],
        associations: vec![TagAssociation {
            target: TagTarget::Backup { save_name: "S".to_string(), backup_name: "B".to_string() },
            tag_names: names(&["c", "gone", "a"]),
        }],
    };
    let got = get_backup_tags(&db, "S", "B");
    assert_eq!(
        got,
        vec![
            Tag { name: "c".to_string(), color: "#111".to_string() },
            Tag { name: "a".to_string(), color: "#000".to_string() },
        ]
    );
    assert!(get_save_tags(&db, "S").is_empty());
}

#[test]
fn targets_are_told_apart() {
    let mut db = TagsDatabase::default();
    create_tag(&mut db, "a".to_string(), "#000".to_string()).unwrap();
    add_tags_to_backup(&mut db, "S", "B1", names(&["a"])).unwrap();
    add_tags_to_backup(&mut db, "S", "B2", names(&["a"])).unwrap();
    add_tags_to_save(&mut db, "S", names(&["a"])).unwrap();
    assert_eq!(db.associations.len(), 3);
    let t = TagTarget::Backup { save_name: "S".to_string(), backup_name: "B2".to_string() };
    assert_eq!(find_association_mut(&db, &t), Some(1));
    let t = TagTarget::Save { relative_path: "S".to_string() };
    assert_eq!(find_association_mut(&db, &t), Some(2));
    let t = TagTarget::Save { relative_path: "B1".to_string() };
    assert_eq!(find_association_mut(&db, &t), None);
}

#[test]
fn error_messages() {
    assert_eq!(TagsError::TagNotFound("x".to_string()).message(), "Tag not found: x");
    assert_eq!(TagsError::InvalidColor("#1".to_string()).message(), "Invalid color format: #1");
    assert_eq!(TagsError::DuplicateTag("d".to_string()).message(), "Tag already exists: d");
    assert_eq!(TagsError::Json("bad".to_string()).message(), "JSON error: bad");
    assert_eq!(TagsError::FileOp("io".to_string()).message(), "File operation error: io");
}
