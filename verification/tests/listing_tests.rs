use rs_imgviewer::config::SortAlgorithm;
use rs_imgviewer::listing::{
    collect_image_paths, find_initial_index, resolve_initial_index, sort_key, sort_order, FileEntry,
    SortKey,
};

fn file(name: &str) -> FileEntry {
    FileEntry {
        path: format!("/pics/{}", name),
        name: name.to_string(),
        is_file: true,
        created: None,
        modified: None,
    }
}

fn dir(name: &str) -> FileEntry {
    FileEntry { is_file: false, ..file(name) }
}

fn timed(name: &str, created: Option<i128>, modified: Option<i128>) -> FileEntry {
    FileEntry { created, modified, ..file(name) }
}

fn paths(names: &[&str]) -> Vec<String> {
    names.iter().map(|n| format!("/pics/{}", n)).collect()
}

#[test]
fn only_supported_extensions_are_kept() {
    let entries = vec![
        file("a.JPG"),
        file("b.txt"),
        dir("c.png"),
        file("d.webp"),
        file(".png"),
        file("e.jpeg"),
        file("f.PnG"),
        file("g.gif"),
        file("h"),
        file("i.png.bak"),
        file("j.tar.jpg"),
        file("k."),
        file("jpg"),
    ];
    let got = collect_image_paths(&entries, SortAlgorithm::FileName);
    assert_eq!(got, paths(&["a.JPG", "d.webp", "e.jpeg", "f.PnG", "j.tar.jpg"]));
}

#[test]
fn subdirectories_are_never_listed() {
    let entries = vec![dir("album.jpg"), dir("b.png"), dir("c.webp"), dir("d.jpeg")];
    for alg in [SortAlgorithm::FileName, SortAlgorithm::CreatedTime, SortAlgorithm::ModifiedTime] {
        assert!(collect_image_paths(&entries, alg).is_empty());
    }
}

#[test]
fn empty_directory_gives_empty_list() {
    let entries: Vec<FileEntry> = Vec::new();
    assert!(collect_image_paths(&entries, SortAlgorithm::FileName).is_empty());
    assert!(collect_image_paths(&entries, SortAlgorithm::CreatedTime).is_empty());
}

#[test]
fn directory_without_images_gives_empty_list() {
    let entries = vec![file("notes.txt"), file("movie.mp4"), dir("sub"), file("README")];
    assert!(collect_image_paths(&entries, SortAlgorithm::ModifiedTime).is_empty());
}

#[test]
fn numeric_stems_sort_by_value() {
    let entries = vec![file("10.png"), file("2.png"), file("1.png")];
    let got = collect_image_paths(&entries, SortAlgorithm::FileName);
    assert_eq!(got, paths(&["1.png", "2.png", "10.png"]));
    assert_ne!(got, paths(&["1.png", "10.png", "2.png"]));
}

#[test]
fn text_stems_sort_without_regard_to_case() {
    let entries = vec![file("Banana.jpg"), file("apple.jpg")];
    let got = collect_image_paths(&entries, SortAlgorithm::FileName);
    assert_eq!(got, paths(&["apple.jpg", "Banana.jpg"]));
}

#[test]
fn number_against_text_compares_as_text() {
    let entries = vec![file("b.png"), file("10.png"), file("9a.png"), file("a.png")];
    let got = collect_image_paths(&entries, SortAlgorithm::FileName);
    assert_eq!(got, paths(&["10.png", "9a.png", "a.png", "b.png"]));
}

#[test]
fn leading_zeros_and_plus_sign_count_as_numbers() {
    let entries = vec![file("+7.png"), file("010.png"), file("9.png"), file("0008.png")];
    let got = collect_image_paths(&entries, SortAlgorithm::FileName);
    assert_eq!(got, paths(&["+7.png", "0008.png", "9.png", "010.png"]));
}

#[test]
fn equal_names_keep_directory_order() {
    let mut first = file("Same.png");
    first.path = "/pics/one/Same.png".to_string();
    let mut second = file("same.PNG");
    second.path = "/pics/two/same.PNG".to_string();
    let mut third = file("SAME.png");
    third.path = "/pics/three/SAME.png".to_string();
    let entries = vec![first, file("zeta.png"), second, file("alpha.png"), third];
    let got = collect_image_paths(&entries, SortAlgorithm::FileName);
    assert_eq!(
        got,
        vec![
            "/pics/alpha.png".to_string(),
            "/pics/one/Same.png".to_string(),
            "/pics/two/same.PNG".to_string(),
            "/pics/three/SAME.png".to_string(),
            "/pics/zeta.png".to_string(),
        ]
    );
}

#[test]
fn equal_numbers_keep_directory_order() {
    let entries = vec![file("2.png"), file("02.jpg"), file("1.png"), file("002.webp")];
    let got = collect_image_paths(&entries, SortAlgorithm::FileName);
    assert_eq!(got, paths(&["1.png", "2.png", "02.jpg", "002.webp"]));
}

#[test]
fn sort_by_creation_time_is_ascending() {
    let entries = vec![
        timed("c.png", Some(300), Some(1)),
        timed("a.png", Some(100), Some(3)),
        timed("b.png", Some(200), Some(2)),
    ];
    let got = collect_image_paths(&entries, SortAlgorithm::CreatedTime);
    assert_eq!(got, paths(&["a.png", "b.png", "c.png"]));
}

#[test]
fn sort_by_modification_time_is_ascending() {
    let entries = vec![
        timed("c.png", Some(300), Some(1)),
        timed("a.png", Some(100), Some(3)),
        timed("b.png", Some(200), Some(2)),
    ];
    let got = collect_image_paths(&entries, SortAlgorithm::ModifiedTime);
    assert_eq!(got, paths(&["c.png", "b.png", "a.png"]));
}

#[test]
fn missing_time_sorts_first() {
    let entries = vec![
        timed("late.png", Some(5_000_000_000), Some(5)),
        timed("before_epoch.png", Some(-7), Some(-7)),
        timed("unknown.png", None, None),
        timed("epoch.png", Some(0), Some(0)),
        timed("unknown_too.png", None, None),
    ];
    let want = paths(&["unknown.png", "unknown_too.png", "before_epoch.png", "epoch.png", "late.png"]);
    assert_eq!(collect_image_paths(&entries, SortAlgorithm::CreatedTime), want);
    assert_eq!(collect_image_paths(&entries, SortAlgorithm::ModifiedTime), want);
}

#[test]
fn equal_times_keep_directory_order() {
    let entries = vec![
        timed("z.png", Some(10), None),
        timed("m.png", Some(10), None),
        timed("a.png", Some(10), None),
        timed("first.png", Some(9), None),
    ];
    let got = collect_image_paths(&entries, SortAlgorithm::CreatedTime);
    assert_eq!(got, paths(&["first.png", "z.png", "m.png", "a.png"]));
}

#[test]
fn time_sort_ignores_names_and_filters_alike() {
    let entries = vec![
        timed("2.png", Some(2), None),
        timed("note.txt", Some(0), None),
        timed("1.png", Some(3), None),
        FileEntry { is_file: false, ..timed("0.png", Some(1), None) },
    ];
    let got = collect_image_paths(&entries, SortAlgorithm::CreatedTime);
    assert_eq!(got, paths(&["2.png", "1.png"]));
}

#[test]
fn a_cycle_of_names_still_gives_every_image_once() {
    let entries = vec![file("2.png"), file("10.png"), file("1a.png")];
    let mut got = collect_image_paths(&entries, SortAlgorithm::FileName);
    assert_eq!(got, paths(&["2.png", "10.png", "1a.png"]));
    got.sort();
    assert_eq!(got, paths(&["10.png", "1a.png", "2.png"]));
}

#[test]
fn sort_key_of_a_name() {
    match sort_key(&file("0042.PNG"), SortAlgorithm::FileName) {
        SortKey::Name { number, folded } => {
            assert_eq!(number, Some(42));
            assert_eq!(folded, vec!['0', '0', '4', '2']);
        }
        SortKey::Time { .. } => panic!("a name key was asked for"),
    }
    match sort_key(&file("HoLiDay.Jpg"), SortAlgorithm::FileName) {
        SortKey::Name { number, folded } => {
            assert_eq!(number, None);
            assert_eq!(folded, "holiday".chars().collect::<Vec<char>>());
        }
        SortKey::Time { .. } => panic!("a name key was asked for"),
    }
}

#[test]
fn sort_key_of_a_time() {
    let entry = timed("a.png", Some(11), Some(22));
    assert!(matches!(sort_key(&entry, SortAlgorithm::CreatedTime), SortKey::Time { at: Some(11) }));
    assert!(matches!(sort_key(&entry, SortAlgorithm::ModifiedTime), SortKey::Time { at: Some(22) }));
    let bare = file("a.png");
    assert!(matches!(sort_key(&bare, SortAlgorithm::CreatedTime), SortKey::Time { at: None }));
}

#[test]
fn keys_compare_as_described() {
    let n = |number: Option<u64>, text: &str| SortKey::Name { number, folded: text.chars().collect() };
    assert!(n(Some(2), "2").is_before(&n(Some(10), "10")));
    assert!(!n(Some(10), "10").is_before(&n(Some(2), "2")));
    assert!(!n(Some(2), "2").is_before(&n(Some(2), "02")));
    assert!(n(Some(10), "10").is_before(&n(None, "9a")));
    assert!(n(None, "apple").is_before(&n(None, "banana")));
    assert!(!n(None, "apple").is_before(&n(None, "apple")));
    let t = |at: Option<i128>| SortKey::Time { at };
    assert!(t(None).is_before(&t(Some(i128::MIN))));
    assert!(!t(None).is_before(&t(None)));
    assert!(!t(Some(0)).is_before(&t(None)));
    assert!(t(Some(-1)).is_before(&t(Some(0))));
    assert!(!t(Some(1)).is_before(&n(None, "a")));
    assert!(!n(None, "a").is_before(&t(Some(1))));
}

#[test]
fn sort_order_lists_positions() {
    let keys: Vec<SortKey> =
        [30, 10, 20, 10].iter().map(|v| SortKey::Time { at: Some(*v) }).collect();
    assert_eq!(sort_order(&keys), vec![1, 3, 2, 0]);
    assert_eq!(sort_order(&Vec::new()), Vec::<usize>::new());
}

#[test]
fn initial_index_is_position_of_target() {
    let list = paths(&["a.png", "b.png", "c.png"]);
    assert_eq!(find_initial_index(&list, "/pics/a.png"), 0);
    assert_eq!(find_initial_index(&list, "/pics/b.png"), 1);
    assert_eq!(find_initial_index(&list, "/pics/c.png"), 2);
}

#[test]
fn initial_index_is_zero_when_target_is_absent() {
    let list = paths(&["a.png", "b.png", "c.png"]);
    assert_eq!(find_initial_index(&list, "/pics/d.png"), 0);
    assert_eq!(find_initial_index(&list, "/pics/B.png"), 0);
    assert_eq!(find_initial_index(&list, "b.png"), 0);
    assert_eq!(find_initial_index(&list, "/pics//b.png"), 0);
    assert_eq!(find_initial_index(&[], "/pics/a.png"), 0);
}

#[test]
fn initial_index_is_first_of_equal_paths() {
    let list = paths(&["a.png", "b.png", "b.png", "c.png"]);
    assert_eq!(find_initial_index(&list, "/pics/b.png"), 1);
}

#[test]
fn launched_with_a_file_the_viewer_starts_there() {
    let list = paths(&["a.png", "b.png", "c.png"]);
    assert_eq!(resolve_initial_index(&list, "/pics/c.png", true), 2);
    assert_eq!(resolve_initial_index(&list, "/pics/b.png", true), 1);
    assert_eq!(resolve_initial_index(&list, "/pics/a.png", true), 0);
}

#[test]
fn launched_with_an_unlisted_file_the_viewer_starts_at_the_first_image() {
    let list = paths(&["a.png", "b.png", "c.png"]);
    assert_eq!(resolve_initial_index(&list, "/pics/notes.txt", true), 0);
    assert_eq!(resolve_initial_index(&list, "/pics/gone.png", true), 0);
    assert_eq!(resolve_initial_index(&[], "/pics/a.png", true), 0);
}

#[test]
fn launched_with_a_directory_the_viewer_starts_at_the_first_image() {
    let list = paths(&["a.png", "b.png", "c.png"]);
    assert_eq!(resolve_initial_index(&list, "/pics", false), 0);
    assert_eq!(resolve_initial_index(&list, "/pics/c.png", false), 0);
}

/// A small generator of numbers that repeats for a given seed.
struct Numbers(u64);

impl Numbers {
    fn next(&mut self) -> u64 {
        self.0 = self.0.wrapping_mul(6364136223846793005).wrapping_add(1442695040888963407);
        self.0 >> 33
    }
}

fn stem_of(name: &str) -> String {
    std::path::Path::new(name).file_stem().unwrap().to_str().unwrap().to_string()
}

#[test]
fn time_sort_agrees_with_a_stable_sort_by_key() {
    let mut numbers = Numbers(7);
    for round in 0..40 {
        let count = (numbers.next() % 30) as usize;
        let entries: Vec<FileEntry> = (0..count)
            .map(|i| {
                let created = if numbers.next() % 5 == 0 { None } else { Some((numbers.next() % 8) as i128 - 3) };
                let modified = if numbers.next() % 5 == 0 { None } else { Some((numbers.next() % 8) as i128 - 3) };
                timed(&format!("r{}_{}.png", round, i), created, modified)
            })
            .collect();
        let mut by_created: Vec<&FileEntry> = entries.iter().collect();
        by_created.sort_by_key(|e| e.created);
        let want: Vec<String> = by_created.iter().map(|e| e.path.clone()).collect();
        assert_eq!(collect_image_paths(&entries, SortAlgorithm::CreatedTime), want);
        let mut by_modified: Vec<&FileEntry> = entries.iter().collect();
        by_modified.sort_by_key(|e| e.modified);
        let want: Vec<String> = by_modified.iter().map(|e| e.path.clone()).collect();
        assert_eq!(collect_image_paths(&entries, SortAlgorithm::ModifiedTime), want);
    }
}

#[test]
fn numeric_name_sort_agrees_with_a_stable_sort_by_value() {
    let mut numbers = Numbers(11);
    for _ in 0..40 {
        let count = (numbers.next() % 30) as usize;
        let entries: Vec<FileEntry> = (0..count)
            .map(|_| {
                let value = numbers.next() % 12;
                let zeros = "0".repeat((numbers.next() % 3) as usize);
                let ext = ["png", "JPG", "jpeg", "WebP"][(numbers.next() % 4) as usize];
                file(&format!("{}{}.{}", zeros, value, ext))
            })
            .collect();
        let mut sorted: Vec<&FileEntry> = entries.iter().collect();
        sorted.sort_by_key(|e| stem_of(&e.name).parse::<u64>().unwrap());
        let want: Vec<String> = sorted.iter().map(|e| e.path.clone()).collect();
        assert_eq!(collect_image_paths(&entries, SortAlgorithm::FileName), want);
    }
}

#[test]
fn text_name_sort_agrees_with_a_stable_sort_of_lower_case_stems() {
    let mut numbers = Numbers(13);
    let letters = ['a', 'B', 'c', 'D', 'é', 'É', 'z', 'Z', '_', '-'];
    for _ in 0..40 {
        let count = (numbers.next() % 30) as usize;
        let entries: Vec<FileEntry> = (0..count)
            .map(|_| {
                let len = 1 + (numbers.next() % 3) as usize;
                let stem: String = (0..len).map(|_| letters[(numbers.next() % 10) as usize]).collect();
                file(&format!("{}.png", stem))
            })
            .collect();
        let mut sorted: Vec<&FileEntry> = entries.iter().collect();
        sorted.sort_by_key(|e| stem_of(&e.name).to_lowercase());
        let want: Vec<String> = sorted.iter().map(|e| e.path.clone()).collect();
        assert_eq!(collect_image_paths(&entries, SortAlgorithm::FileName), want);
    }
}

#[test]
fn every_image_is_listed_exactly_once() {
    let mut numbers = Numbers(17);
    let stems = ["1", "2", "10", "1a", "a", "B", "+3", "003", "x.y", ""];
    let exts = ["png", "PNG", "jpg", "jpeg", "webp", "gif", "txt", ""];
    for _ in 0..40 {
        let count = (numbers.next() % 40) as usize;
        let entries: Vec<FileEntry> = (0..count)
            .map(|i| {
                let stem = stems[(numbers.next() % 10) as usize];
                let ext = exts[(numbers.next() % 8) as usize];
                let mut entry = file(&format!("{}.{}", stem, ext));
                entry.path = format!("/pics/{}/{}", i, entry.name);
                entry.is_file = numbers.next() % 4 != 0;
                entry
            })
            .collect();
        let mut want: Vec<String> = entries
            .iter()
            .filter(|e| {
                e.is_file
                    && std::path::Path::new(&e.name)
                        .extension()
                        .and_then(|x| x.to_str())
                        .map(|x| matches!(x.to_lowercase().as_str(), "jpg" | "jpeg" | "png" | "webp"))
                        .unwrap_or(false)
            })
            .map(|e| e.path.clone())
            .collect();
        let mut got = collect_image_paths(&entries, SortAlgorithm::FileName);
        got.sort();
        want.sort();
        assert_eq!(got, want);
    }
}
