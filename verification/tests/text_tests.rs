use rs_imgviewer::text::{
    chars_of, digit_of, file_extension, file_stem, find_last_dot, find_split, is_image_name,
    is_supported_extension, number_text, parse_number, text_less,
};

fn chars(s: &str) -> Vec<char> {
    s.chars().collect()
}

#[test]
fn extension_is_what_follows_the_last_dot() {
    assert_eq!(file_extension("photo.jpg"), Some("jpg"));
    assert_eq!(file_extension("archive.tar.gz"), Some("gz"));
    assert_eq!(file_extension("trailing."), Some(""));
    assert_eq!(file_extension("a.b"), Some("b"));
    assert_eq!(file_extension("..png"), Some("png"));
    assert_eq!(file_extension("日本語.写真"), Some("写真"));
}

#[test]
fn names_without_extension() {
    assert_eq!(file_extension("photo"), None);
    assert_eq!(file_extension(".hidden"), None);
    assert_eq!(file_extension(""), None);
    assert_eq!(file_extension("."), None);
}

#[test]
fn stem_is_what_precedes_the_last_dot() {
    assert_eq!(file_stem("photo.jpg"), "photo");
    assert_eq!(file_stem("archive.tar.gz"), "archive.tar");
    assert_eq!(file_stem("trailing."), "trailing");
    assert_eq!(file_stem("photo"), "photo");
    assert_eq!(file_stem(".hidden"), ".hidden");
    assert_eq!(file_stem(""), "");
    assert_eq!(file_stem("..png"), ".");
    assert_eq!(file_stem("日本語.写真"), "日本語");
}

#[test]
fn split_and_last_dot_positions() {
    assert_eq!(find_last_dot(&chars("a.b.c")), Some(3));
    assert_eq!(find_last_dot(&chars(".abc")), Some(0));
    assert_eq!(find_last_dot(&chars("abc")), None);
    assert_eq!(find_last_dot(&chars("")), None);
    assert_eq!(find_split("a.b.c"), Some(3));
    assert_eq!(find_split(".abc"), None);
    assert_eq!(find_split("abc"), None);
    assert_eq!(find_split("é.png"), Some(1));
}

#[test]
fn chars_of_gives_the_characters() {
    assert_eq!(chars_of("aé日"), vec!['a', 'é', '日']);
    assert_eq!(chars_of(""), Vec::<char>::new());
}

#[test]
fn image_names_in_any_case() {
    for name in ["a.jpg", "a.JPG", "a.Jpg", "a.jpeg", "a.JPEG", "a.png", "a.PNG", "a.webp", "a.WebP", "x.y.png"] {
        assert!(is_image_name(name), "{}", name);
    }
}

#[test]
fn names_that_are_no_image_names() {
    for name in ["a.gif", "a.bmp", "a.jpg.txt", "jpg", ".jpg", "a.", "a", "", "a.jpgg", "a.pn", "a.jp g", "a.png "] {
        assert!(!is_image_name(name), "{}", name);
    }
}

#[test]
fn supported_extensions_are_exactly_four() {
    for ext in ["jpg", "jpeg", "png", "webp"] {
        assert!(is_supported_extension(ext));
    }
    for ext in ["JPG", "Png", "", "gif", "jpe", "jpegs", "web", " png"] {
        assert!(!is_supported_extension(ext));
    }
}

#[test]
fn numbers_are_read() {
    assert_eq!(parse_number("0"), Some(0));
    assert_eq!(parse_number("7"), Some(7));
    assert_eq!(parse_number("007"), Some(7));
    assert_eq!(parse_number("+7"), Some(7));
    assert_eq!(parse_number("1234567890"), Some(1234567890));
    assert_eq!(parse_number("18446744073709551615"), Some(u64::MAX));
    assert_eq!(parse_number("000018446744073709551615"), Some(u64::MAX));
}

#[test]
fn what_is_no_number() {
    for text in ["", "+", "-1", "-0", "++1", "1+", "1.5", "1_000", " 1", "1 ", "a", "12a", "0x10", "١٢٣", "18446744073709551616", "99999999999999999999999", "184467440737095516150"] {
        assert_eq!(parse_number(text), None, "{:?}", text);
    }
}

#[test]
fn digits_have_their_values() {
    assert_eq!(digit_of('0'), Some(0));
    assert_eq!(digit_of('5'), Some(5));
    assert_eq!(digit_of('9'), Some(9));
    assert_eq!(digit_of('a'), None);
    assert_eq!(digit_of('/'), None);
    assert_eq!(digit_of(':'), None);
    assert_eq!(digit_of('٣'), None);
}

#[test]
fn text_order_is_by_first_difference() {
    assert!(text_less(&chars("apple"), &chars("banana")));
    assert!(!text_less(&chars("banana"), &chars("apple")));
    assert!(text_less(&chars("app"), &chars("apple")));
    assert!(!text_less(&chars("apple"), &chars("app")));
    assert!(!text_less(&chars("apple"), &chars("apple")));
    assert!(text_less(&chars(""), &chars("a")));
    assert!(!text_less(&chars(""), &chars("")));
    assert!(text_less(&chars("B"), &chars("a")));
    assert!(text_less(&chars("10"), &chars("9")));
    assert!(text_less(&chars("z"), &chars("é")));
}

#[test]
fn text_order_agrees_with_string_order() {
    let words = ["", "a", "A", "ab", "b", "é", "日本", "10", "2", "a b", "a-b", "~", "Z"];
    for a in words {
        for b in words {
            assert_eq!(text_less(&chars(a), &chars(b)), a < b, "{:?} {:?}", a, b);
        }
    }
}

#[test]
fn numbers_are_written_in_decimal() {
    assert_eq!(number_text(0), "0");
    assert_eq!(number_text(7), "7");
    assert_eq!(number_text(10), "10");
    assert_eq!(number_text(800), "800");
    assert_eq!(number_text(1234567890), "1234567890");
    assert_eq!(number_text(u64::MAX), "18446744073709551615");
}

#[test]
fn written_numbers_are_read_back() {
    for n in [0u64, 1, 9, 10, 11, 99, 100, 101, 600, 800, 4294967295, 4294967296, u64::MAX - 1, u64::MAX] {
        assert_eq!(parse_number(&number_text(n)), Some(n));
        assert_eq!(number_text(n), n.to_string());
    }
}

#[test]
fn extension_and_stem_agree_with_the_standard_library() {
    let names = [
        "a.png", "a", ".a", "a.", "a.b.c", "..a", ".a.b", "a..b", "a..", "...", "a b.c d", "日本語.jpg",
        "é.É", "1.2.3", "+7.png", ".hidden.png", "x.tar.gz", "UPPER.JPG", " .png", ".png.", "a.b.",
    ];
    for name in names {
        let path = std::path::Path::new(name);
        assert_eq!(file_extension(name), path.extension().and_then(|e| e.to_str()), "{:?}", name);
        assert_eq!(Some(file_stem(name)), path.file_stem().and_then(|e| e.to_str()), "{:?}", name);
    }
}

#[test]
fn numbers_agree_with_the_standard_library() {
    let texts = [
        "", "0", "00", "1", "+1", "-1", "+", "-", "+-1", "1+", "12345", "18446744073709551615",
        "18446744073709551616", "+18446744073709551615", "０", "1e3", "0b1", "٣", " 7", "7\n",
    ];
    for text in texts {
        assert_eq!(parse_number(text), text.parse::<u64>().ok(), "{:?}", text);
    }
}
