use oculante::interleave::insert_after_every;
use oculante::natural::{has_short_digit_runs, ranks_before, sort_by_name};
use oculante::path::FilePath;
use oculante::pathset::PathSet;
use oculante::scrubber::{
    find_first_image_in_directory, get_image_filenames_for_directory, order, FolderError,
};

fn path(parts: &[&str]) -> FilePath {
    FilePath { parts: parts.iter().map(|p| p.to_string()).collect() }
}

fn in_dir(names: &[&str]) -> Vec<FilePath> {
    names.iter().map(|n| path(&["/", "pics", n])).collect()
}

fn names(paths: &[FilePath]) -> Vec<String> {
    paths.iter().map(|p| p.file_name()).collect()
}

fn letters(names: &[&str]) -> Vec<FilePath> {
    names.iter().map(|n| path(&[n])).collect()
}

#[test]
fn natural_order_puts_numbers_by_value() {
    let ordered = order(in_dir(&["img10.png", "img2.png", "img1.png"]), false);
    assert_eq!(names(&ordered), vec!["img1.png", "img2.png", "img10.png"]);
}

#[test]
fn natural_order_ignores_the_folders() {
    let files = vec![
        path(&["/", "z", "img2.png"]),
        path(&["/", "a", "img10.png"]),
        path(&["/", "m", "img1.png"]),
    ];
    let ordered = sort_by_name(&files);
    assert_eq!(names(&ordered), vec!["img1.png", "img2.png", "img10.png"]);
    assert_eq!(ordered[0], path(&["/", "m", "img1.png"]));
}

#[test]
fn sort_of_nothing_is_nothing() {
    assert!(sort_by_name(&Vec::new()).is_empty());
    assert!(order(Vec::new(), false).is_empty());
    assert!(order(Vec::new(), true).is_empty());
}

#[test]
fn sort_keeps_every_path() {
    let files = in_dir(&["b.png", "a.png", "b.png", "c10.jpg", "c9.jpg"]);
    let ordered = sort_by_name(&files);
    assert_eq!(names(&ordered), vec!["a.png", "b.png", "b.png", "c9.jpg", "c10.jpg"]);
}

#[test]
fn ranks_before_follows_the_digits() {
    assert!(ranks_before(&path(&["img2.png"]), &path(&["img10.png"])));
    assert!(!ranks_before(&path(&["img10.png"]), &path(&["img2.png"])));
    assert!(!ranks_before(&path(&["img2.png"]), &path(&["img2.png"])));
    assert!(ranks_before(&path(&[]), &path(&["a"])));
}

#[test]
fn names_that_differ_in_case_sort_together() {
    let ordered = sort_by_name(&letters(&["b", "C", "a"]));
    assert_eq!(names(&ordered), vec!["a", "b", "C"]);
}

#[test]
fn shuffle_keeps_every_path() {
    let files = in_dir(&["a.png", "b.png", "c.png", "d.png", "e.png", "a.png"]);
    let shuffled = order(in_dir(&["a.png", "b.png", "c.png", "d.png", "e.png", "a.png"]), true);
    assert_eq!(shuffled.len(), files.len());
    let mut got = names(&shuffled);
    let mut want = names(&files);
    got.sort();
    want.sort();
    assert_eq!(got, want);
}

#[test]
fn interleave_is_deterministic() {
    let main = ["a", "b", "c", "d", "e", "f"];
    let favourites = ["c", "e"];
    let first = insert_after_every(letters(&main), letters(&favourites), 2);
    let second = insert_after_every(letters(&main), letters(&favourites), 2);
    assert_eq!(names(&first), vec!["a", "b", "c", "d", "f", "e"]);
    assert_eq!(first, second);
}

#[test]
fn interleave_places_favourites_at_multiples_only() {
    let main = ["a", "b", "c", "d", "e", "f", "g", "h"];
    let favourites = ["c", "e"];
    let woven = insert_after_every(letters(&main), letters(&favourites), 3);
    assert_eq!(names(&woven), vec!["a", "b", "d", "c", "f", "g", "h", "e"]);
}

#[test]
fn interleave_appends_what_finds_no_place() {
    let woven = insert_after_every(letters(&["a", "b", "c", "d"]), letters(&["b", "c", "d"]), 1);
    assert_eq!(names(&woven), vec!["a", "b", "c", "d"]);
    let woven = insert_after_every(letters(&["x", "a", "b", "c"]), letters(&["c", "b", "a"]), 5);
    assert_eq!(names(&woven), vec!["x", "c", "b", "a"]);
}

#[test]
fn interleave_every_one_alternates() {
    let woven = insert_after_every(letters(&["a", "b", "c", "d"]), letters(&["d", "c"]), 1);
    assert_eq!(names(&woven), vec!["a", "d", "b", "c"]);
}

#[test]
fn interleave_drops_stale_favourites() {
    let woven = insert_after_every(letters(&["a", "b", "c"]), letters(&["gone", "b"]), 1);
    assert_eq!(names(&woven), vec!["a", "b", "c"]);
}

#[test]
fn interleave_with_zero_spacing_changes_nothing() {
    let woven = insert_after_every(letters(&["c", "a", "b"]), letters(&["a"]), 0);
    assert_eq!(names(&woven), vec!["c", "a", "b"]);
}

#[test]
fn interleave_of_empty_lists() {
    assert!(insert_after_every(Vec::new(), letters(&["a"]), 2).is_empty());
    let woven = insert_after_every(letters(&["a", "b"]), Vec::new(), 2);
    assert_eq!(names(&woven), vec!["a", "b"]);
}

#[test]
fn listing_sorts_and_weaves() {
    let favourites = PathSet::from_list(&letters(&["img10.png", "img3.png"]));
    let files = letters(&["img10.png", "img4.png", "img3.png", "img1.png", "img2.png"]);
    let listed = get_image_filenames_for_directory(files, false, &Some(favourites), 2);
    assert_eq!(
        names(&listed),
        vec!["img1.png", "img2.png", "img3.png", "img4.png", "img10.png"]
    );
    let favourites = PathSet::from_list(&letters(&["img1.png", "img2.png"]));
    let files = letters(&["img10.png", "img4.png", "img3.png", "img1.png", "img2.png"]);
    let listed = get_image_filenames_for_directory(files, false, &Some(favourites), 1);
    assert_eq!(
        names(&listed),
        vec!["img3.png", "img1.png", "img4.png", "img2.png", "img10.png"]
    );
}

#[test]
fn listing_without_spacing_only_sorts() {
    let favourites = PathSet::from_list(&letters(&["b"]));
    let listed = get_image_filenames_for_directory(letters(&["c", "b", "a"]), false, &Some(favourites), 0);
    assert_eq!(names(&listed), vec!["a", "b", "c"]);
    let listed = get_image_filenames_for_directory(letters(&["c", "b", "a"]), false, &None, 3);
    assert_eq!(names(&listed), vec!["a", "b", "c"]);
}

#[test]
fn shuffled_listing_keeps_every_path() {
    let favourites = PathSet::from_list(&letters(&["b", "d", "zz"]));
    let listed =
        get_image_filenames_for_directory(letters(&["a", "b", "c", "d", "e"]), true, &Some(favourites), 2);
    let mut got = names(&listed);
    got.sort();
    assert_eq!(got, vec!["a", "b", "c", "d", "e"]);
}

#[test]
fn first_image_is_the_first_in_natural_order() {
    let first = find_first_image_in_directory(true, in_dir(&["img10.png", "img2.png", "img1.png"]));
    assert_eq!(first, Ok(path(&["/", "pics", "img1.png"])));
}

#[test]
fn first_image_of_no_folder() {
    let first = find_first_image_in_directory(false, in_dir(&["img1.png"]));
    assert_eq!(first, Err(FolderError::NotAFolder));
}

#[test]
fn first_image_of_an_empty_folder() {
    let first = find_first_image_in_directory(true, Vec::new());
    assert_eq!(first, Err(FolderError::NoImages));
}

fn fullwidth(digits: &str) -> String {
    digits.chars().map(|c| char::from_u32(c as u32 - '0' as u32 + 0xff10).unwrap()).collect()
}

#[test]
fn long_numbers_are_compared_digit_by_digit() {
    let larger = path(&["18446744073709551616.png"]);
    let smaller = path(&["18446744073709551615.png"]);
    assert!(ranks_before(&smaller, &larger));
    assert!(!ranks_before(&larger, &smaller));
    let ordered = sort_by_name(&vec![larger, smaller]);
    assert_eq!(names(&ordered), vec!["18446744073709551615.png", "18446744073709551616.png"]);
}

#[test]
fn long_numbers_in_other_digits_are_compared_digit_by_digit() {
    let larger = path(&[&(fullwidth("18446744073709551616") + ".png")]);
    let smaller = path(&[&(fullwidth("18446744073709551615") + ".png")]);
    assert!(ranks_before(&smaller, &larger));
    assert!(!ranks_before(&larger, &smaller));
}

#[test]
fn a_long_number_against_a_short_one_goes_by_value() {
    let long = path(&["99999999999999999999999.png"]);
    let short = path(&["5.png"]);
    assert!(ranks_before(&short, &long));
    assert!(!ranks_before(&long, &short));
    let padded = path(&["0000000000000000000000007.png"]);
    assert!(ranks_before(&short, &padded));
}

#[test]
fn numbers_of_nineteen_digits_go_by_value() {
    let nine = path(&["a9999999999999999999.png"]);
    let ten = path(&["a10000000000000000000.png"]);
    assert!(ranks_before(&nine, &ten));
    assert!(!ranks_before(&ten, &nine));
    let two = path(&["0000000000000000002.png"]);
    let ten = path(&["0000000000000000010.png"]);
    assert!(ranks_before(&two, &ten));
}

#[test]
fn short_digit_runs_are_recognised() {
    let chars = |text: &str| text.chars().collect::<Vec<char>>();
    assert!(has_short_digit_runs(&chars("")));
    assert!(has_short_digit_runs(&chars("img10.png")));
    assert!(has_short_digit_runs(&chars("1234567890123456789")));
    assert!(!has_short_digit_runs(&chars("12345678901234567890")));
    assert!(has_short_digit_runs(&chars("1234567890a1234567890b123456789")));
    assert!(!has_short_digit_runs(&chars("x00000000000000000000")));
}
