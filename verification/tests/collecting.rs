use oculante::collect::{extension, folder_to_list, is_ext_compatible, keep_supported, lists};
use oculante::message::Message;
use oculante::path::FilePath;

fn path(parts: &[&str]) -> FilePath {
    FilePath { parts: parts.iter().map(|p| p.to_string()).collect() }
}

fn allowed() -> Vec<String> {
    vec!["png".to_string(), "jpg".to_string(), "tar.gz".to_string()]
}

#[test]
fn extension_follows_the_last_dot() {
    assert_eq!(extension("a.png"), Some("png".to_string()));
    assert_eq!(extension("a.tar.gz"), Some("gz".to_string()));
    assert_eq!(extension("a."), Some(String::new()));
    assert_eq!(extension("bl\u{e4}tter.j\u{fc}g"), Some("j\u{fc}g".to_string()));
    assert_eq!(extension(".hidden.png"), Some("png".to_string()));
}

#[test]
fn some_names_have_no_extension() {
    assert_eq!(extension("a"), None);
    assert_eq!(extension(""), None);
    assert_eq!(extension(".hidden"), None);
    assert_eq!(extension(".."), None);
    assert_eq!(extension("."), None);
}

#[test]
fn lists_finds_exact_texts() {
    assert!(lists(&allowed(), &"png".to_string()));
    assert!(!lists(&allowed(), &"PNG".to_string()));
    assert!(!lists(&allowed(), &"pn".to_string()));
    assert!(!lists(&Vec::new(), &"png".to_string()));
}

#[test]
fn supported_files_are_kept_in_order() {
    let listing = vec![
        path(&["/", "pics", "b.png"]),
        path(&["/", "pics", "notes.txt"]),
        path(&["/", "pics", "sub"]),
        path(&["/", "pics", "a.jpg"]),
        path(&["/", "pics", ".png"]),
        path(&["/", "pics", "b.png.bak"]),
        path(&[]),
    ];
    let kept = keep_supported(listing, &allowed());
    assert_eq!(kept, vec![path(&["/", "pics", "b.png"]), path(&["/", "pics", "a.jpg"])]);
    assert!(keep_supported(Vec::new(), &allowed()).is_empty());
    assert!(keep_supported(vec![path(&["a.png"])], &Vec::new()).is_empty());
}

#[test]
fn only_the_file_name_decides() {
    assert!(is_ext_compatible(&path(&["/", "a.txt", "b.png"]), &allowed()));
    assert!(!is_ext_compatible(&path(&["/", "a.png", "b.txt"]), &allowed()));
    assert!(!is_ext_compatible(&path(&["/", "a.png", "b"]), &allowed()));
}

#[test]
fn a_file_is_listed_with_its_folder() {
    let file = path(&["/", "pics", "a.png"]);
    assert_eq!(folder_to_list(&file, true), Some(path(&["/", "pics"])));
    assert_eq!(folder_to_list(&file, false), Some(path(&["/", "pics", "a.png"])));
    assert_eq!(folder_to_list(&path(&["a.png"]), true), Some(path(&[])));
    assert_eq!(folder_to_list(&path(&[]), true), None);
    assert_eq!(folder_to_list(&path(&[]), false), Some(path(&[])));
}

#[test]
fn messages_carry_their_text() {
    assert_eq!(Message::info("loaded"), Message::Info("loaded".to_string()));
    assert_eq!(Message::warn("Unsupported file!"), Message::Warning("Unsupported file!".to_string()));
    assert_eq!(Message::err("No images"), Message::Error("No images".to_string()));
    assert_eq!(Message::info(""), Message::Info(String::new()));
    let message = Message::LoadError("broken".to_string());
    assert_eq!(message.clone(), message);
}

#[test]
fn paths_compare_by_their_components() {
    let a = path(&["/", "pics", "a.png"]);
    assert!(a.same(&path(&["/", "pics", "a.png"])));
    assert!(!a.same(&path(&["/", "pics", "b.png"])));
    assert!(!a.same(&path(&["/", "pics"])));
    assert!(path(&[]).same(&FilePath::empty()));
    assert_eq!(a.clone(), a);
    assert_eq!(a.file_name(), "a.png");
    assert_eq!(FilePath::empty().file_name(), "");
    assert_eq!(path(&["/", "pics"]).child("a.png"), a);
}

#[test]
fn starts_with_compares_whole_components() {
    let a = path(&["/", "pics", "a.png"]);
    assert!(a.starts_with(&path(&["/", "pics"])));
    assert!(a.starts_with(&a));
    assert!(a.starts_with(&path(&[])));
    assert!(!a.starts_with(&path(&["/", "pic"])));
    assert!(!a.starts_with(&path(&["/", "pics", "a.png", "x"])));
    assert!(!a.starts_with(&path(&["pics"])));
}
