use oculante::db::{
    add_to_favourites, get_db_file, split_record, FavouriteChange, PathError, StoreError,
    StoreState, DB, SEPARATOR,
};
use oculante::path::FilePath;
use oculante::pathset::PathSet;

fn path(parts: &[&str]) -> FilePath {
    FilePath { parts: parts.iter().map(|p| p.to_string()).collect() }
}

fn root() -> FilePath {
    path(&["/", "home", "pics"])
}

fn open_store() -> DB {
    let mut db = DB::new(&root());
    assert_eq!(db.open(true), Ok(()));
    db
}

fn flags(rows: &[String], gone: &[&str]) -> Vec<bool> {
    rows.iter().map(|row| !gone.contains(&row.as_str())).collect()
}

#[test]
fn separator_is_a_tab() {
    assert_eq!(SEPARATOR, '\t');
}

#[test]
fn db_file_lies_in_the_folder() {
    assert_eq!(get_db_file(&root()), path(&["/", "home", "pics", "favourites.db"]));
    assert_eq!(get_db_file(&path(&[])), path(&["favourites.db"]));
    assert_eq!(DB::new(&root()).file(), path(&["/", "home", "pics", "favourites.db"]));
}

#[test]
fn record_joins_the_components_below_the_folder() {
    let db = DB::new(&root());
    let record = db.prepare_record(&path(&["/", "home", "pics", "2020", "may", "a.png"]));
    assert_eq!(record, Ok("2020\tmay\ta.png".to_string()));
    let record = db.prepare_record(&path(&["/", "home", "pics", "a.png"]));
    assert_eq!(record, Ok("a.png".to_string()));
    assert_eq!(db.prepare_record(&root()), Ok(String::new()));
}

#[test]
fn record_of_a_path_elsewhere_is_an_error() {
    let db = DB::new(&root());
    assert_eq!(
        db.prepare_record(&path(&["/", "home", "other", "a.png"])),
        Err(PathError::NotUnderRoot)
    );
    assert_eq!(db.prepare_record(&path(&["/", "home"])), Err(PathError::NotUnderRoot));
    assert_eq!(db.prepare_record(&path(&[])), Err(PathError::NotUnderRoot));
}

#[test]
fn record_splits_into_its_components() {
    let db = DB::new(&root());
    assert_eq!(db.join_path_parts("2020\tmay\ta.png"), path(&["2020", "may", "a.png"]));
    assert_eq!(db.join_path_parts("a.png"), path(&["a.png"]));
    assert_eq!(db.join_path_parts(""), path(&[]));
    assert_eq!(split_record("a\t\tb"), path(&["a", "b"]));
    assert_eq!(split_record("\ta\t"), path(&["a"]));
    assert_eq!(split_record("\t"), path(&[]));
    assert_eq!(split_record("bl\u{e4}tter\tb\u{e4}ume.png"), path(&["bl\u{e4}tter", "b\u{e4}ume.png"]));
}

#[test]
fn decode_resolves_against_the_folder() {
    let db = DB::new(&root());
    assert_eq!(
        db.decode("2020\ta.png"),
        path(&["/", "home", "pics", "2020", "a.png"])
    );
    assert_eq!(db.decode(""), root());
}

#[test]
fn encode_then_decode_gives_the_path_back() {
    let db = DB::new(&root());
    for below in [
        vec!["a.png"],
        vec!["2020", "a.png"],
        vec!["a b", "c d", "e f", "g.h.i"],
        vec!["with space", "\u{fc}ber.jpg"],
    ] {
        let mut parts = vec!["/", "home", "pics"];
        parts.extend(below);
        let original = path(&parts);
        let record = db.prepare_record(&original).unwrap();
        assert_eq!(db.decode(&record), original);
    }
}

#[test]
fn a_tab_in_a_name_breaks_the_round_trip() {
    let db = DB::new(&root());
    let original = path(&["/", "home", "pics", "a\tb.png"]);
    let record = db.prepare_record(&original).unwrap();
    assert_eq!(db.decode(&record), path(&["/", "home", "pics", "a", "b.png"]));
}

#[test]
fn new_store_is_not_open() {
    let db = DB::new(&root());
    assert_eq!(db.current_state(), StoreState::Unopened);
    let a = path(&["/", "home", "pics", "a.png"]);
    assert_eq!(db.insert(&a), Err(StoreError::Unavailable));
    assert_eq!(db.delete(&a), Err(StoreError::Unavailable));
    assert_eq!(db.candidates(&Vec::new()), Err(StoreError::Unavailable));
    assert!(matches!(db.get_all(&Vec::new(), &Vec::new()), Err(StoreError::Unavailable)));
}

#[test]
fn a_failed_connection_leaves_the_store_unopened() {
    let mut db = DB::new(&root());
    assert_eq!(db.open(false), Err(StoreError::Unavailable));
    assert_eq!(db.current_state(), StoreState::Unopened);
    assert_eq!(db.close(), Err(StoreError::Unavailable));
    assert_eq!(db.current_state(), StoreState::Unopened);
    assert_eq!(db.open(true), Ok(()));
    assert_eq!(db.current_state(), StoreState::Open);
    assert_eq!(db.open(false), Ok(()));
    assert_eq!(db.current_state(), StoreState::Open);
}

#[test]
fn a_closed_store_refuses_everything() {
    let mut db = open_store();
    assert_eq!(db.close(), Ok(()));
    assert_eq!(db.current_state(), StoreState::Closed);
    let a = path(&["/", "home", "pics", "a.png"]);
    assert_eq!(db.insert(&a), Err(StoreError::Closed));
    assert_eq!(db.delete(&a), Err(StoreError::Closed));
    assert_eq!(db.candidates(&vec!["a.png".to_string()]), Err(StoreError::Closed));
    assert!(matches!(db.get_all(&Vec::new(), &Vec::new()), Err(StoreError::Closed)));
    assert_eq!(db.close(), Err(StoreError::Closed));
    assert_eq!(db.open(true), Err(StoreError::Closed));
    assert_eq!(db.current_state(), StoreState::Closed);
}

#[test]
fn insert_and_delete_name_the_record() {
    let db = open_store();
    let a = path(&["/", "home", "pics", "sub", "a.png"]);
    assert_eq!(db.insert(&a), Ok("sub\ta.png".to_string()));
    assert_eq!(db.delete(&a), Ok("sub\ta.png".to_string()));
    let elsewhere = path(&["/", "tmp", "a.png"]);
    assert_eq!(db.insert(&elsewhere), Err(StoreError::Path(PathError::NotUnderRoot)));
    assert_eq!(db.delete(&elsewhere), Err(StoreError::Path(PathError::NotUnderRoot)));
}

#[test]
fn favourites_round_trip_through_the_rows() {
    let db = open_store();
    let a = path(&["/", "home", "pics", "a.png"]);
    let b = path(&["/", "home", "pics", "sub", "b.png"]);
    let mut rows: Vec<String> = Vec::new();
    rows.push(db.insert(&a).unwrap());
    rows.push(db.insert(&b).unwrap());
    let all = db.get_all(&rows, &flags(&rows, &[])).unwrap();
    assert!(all.contains(&a));
    assert!(all.contains(&b));
    assert_eq!(all.len(), 2);

    let gone = db.delete(&a).unwrap();
    rows.retain(|row| *row != gone);
    let all = db.get_all(&rows, &flags(&rows, &[])).unwrap();
    assert!(!all.contains(&a));
    assert!(all.contains(&b));

    let all = db.get_all(&rows, &flags(&rows, &["sub\tb.png"])).unwrap();
    assert!(!all.contains(&b));
    assert_eq!(all.len(), 0);
    assert_eq!(rows, vec!["sub\tb.png".to_string()]);
}

#[test]
fn get_all_lists_each_path_once_and_in_order() {
    let db = open_store();
    let rows: Vec<String> =
        ["c.png", "a.png", "c.png", "x\ty.png", "a.png"].iter().map(|r| r.to_string()).collect();
    let all = db.get_all(&rows, &vec![true, true, true, true, true]).unwrap();
    assert_eq!(
        all.as_list(),
        &vec![
            path(&["/", "home", "pics", "c.png"]),
            path(&["/", "home", "pics", "a.png"]),
            path(&["/", "home", "pics", "x", "y.png"]),
        ]
    );
    let all = db.get_all(&rows, &vec![false, true, true]).unwrap();
    assert_eq!(
        all.as_list(),
        &vec![path(&["/", "home", "pics", "a.png"]), path(&["/", "home", "pics", "c.png"])]
    );
}

#[test]
fn candidates_decode_every_row() {
    let db = open_store();
    let rows: Vec<String> = ["a.png", "x\ty.png", ""].iter().map(|r| r.to_string()).collect();
    assert_eq!(
        db.candidates(&rows),
        Ok(vec![
            path(&["/", "home", "pics", "a.png"]),
            path(&["/", "home", "pics", "x", "y.png"]),
            root(),
        ])
    );
}

#[test]
fn toggling_adds_then_removes() {
    let db = open_store();
    let a = path(&["/", "home", "pics", "a.png"]);
    let b = path(&["/", "home", "pics", "b.png"]);
    let mut favourites = PathSet::new();
    assert_eq!(
        add_to_favourites(&mut favourites, &db, &a),
        Ok(FavouriteChange::Added("a.png".to_string()))
    );
    assert_eq!(
        add_to_favourites(&mut favourites, &db, &b),
        Ok(FavouriteChange::Added("b.png".to_string()))
    );
    assert!(favourites.contains(&a));
    assert_eq!(favourites.len(), 2);
    assert_eq!(
        add_to_favourites(&mut favourites, &db, &a),
        Ok(FavouriteChange::Removed("a.png".to_string()))
    );
    assert!(!favourites.contains(&a));
    assert!(favourites.contains(&b));
    assert_eq!(favourites.len(), 1);
}

#[test]
fn toggling_without_a_store_changes_nothing() {
    let mut db = DB::new(&root());
    let a = path(&["/", "home", "pics", "a.png"]);
    let mut favourites = PathSet::new();
    assert_eq!(add_to_favourites(&mut favourites, &db, &a), Err(StoreError::Unavailable));
    assert_eq!(favourites.len(), 0);
    assert_eq!(db.open(true), Ok(()));
    assert_eq!(
        add_to_favourites(&mut favourites, &db, &path(&["/", "tmp", "x.png"])),
        Err(StoreError::Path(PathError::NotUnderRoot))
    );
    assert_eq!(favourites.len(), 0);
    add_to_favourites(&mut favourites, &db, &a).unwrap();
    assert_eq!(db.close(), Ok(()));
    assert_eq!(add_to_favourites(&mut favourites, &db, &a), Err(StoreError::Closed));
    assert!(favourites.contains(&a));
}
