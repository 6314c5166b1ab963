use babel::{
    format_page, left_pad, normalize, pad_rand, random_filler, surround, BABEL_SET, COLUMNS,
    PAGE_LENGTH, ROWS,
};

#[test]
fn a_page_is_forty_rows_of_eighty() {
    assert_eq!((ROWS, COLUMNS, PAGE_LENGTH), (40, 80, 3200));
}

#[test]
fn normalize_fills_a_short_text_with_spaces() {
    let page = normalize("abc");
    assert_eq!(page.len(), PAGE_LENGTH);
    assert_eq!(page, format!("abc{}", " ".repeat(PAGE_LENGTH - 3)));
    assert_eq!(normalize(""), " ".repeat(PAGE_LENGTH));
}

#[test]
fn normalize_cuts_a_long_text() {
    let text = "xy".repeat(PAGE_LENGTH);
    assert_eq!(normalize(&text), "xy".repeat(PAGE_LENGTH / 2));
    let text = format!("{}!", "q".repeat(PAGE_LENGTH));
    assert_eq!(normalize(&text), "q".repeat(PAGE_LENGTH));
}

#[test]
fn normalize_keeps_a_full_page() {
    let text = "m".repeat(PAGE_LENGTH);
    assert_eq!(normalize(&text), text);
}

#[test]
fn normalize_twice_is_normalize_once() {
    for text in ["", "abc", "  lead", &"long ".repeat(1000)] {
        let once = normalize(text);
        assert_eq!(normalize(&once), once);
    }
}

#[test]
fn normalize_counts_characters() {
    let page = normalize("\u{e9}\u{e9}");
    assert_eq!(page.chars().count(), PAGE_LENGTH);
    assert!(page.starts_with("\u{e9}\u{e9} "));
    let text = "\u{e9}".repeat(PAGE_LENGTH + 5);
    assert_eq!(normalize(&text), "\u{e9}".repeat(PAGE_LENGTH));
}

#[test]
fn left_pad_fills_the_front() {
    assert_eq!(left_pad("abc", 5, ' '), "  abc");
    assert_eq!(left_pad("", 3, '0'), "000");
    assert_eq!(left_pad("abc", 3, ' '), "abc");
    assert_eq!(left_pad("abcd", 3, ' '), "abcd");
    assert_eq!(left_pad("\u{e9}", 3, '.'), "..\u{e9}");
}

#[test]
fn format_page_ends_each_full_row() {
    let page = format!("{}{}", "a".repeat(80), "b".repeat(80));
    assert_eq!(format_page(&page), format!("{}\n{}\n", "a".repeat(80), "b".repeat(80)));
    assert_eq!(format_page("short"), "short");
    assert_eq!(format_page(""), "");
    let page = format!("{}c", "a".repeat(80));
    assert_eq!(format_page(&page), format!("{}\nc", "a".repeat(80)));
}

#[test]
fn format_page_of_a_whole_page() {
    let out = format_page(&"x".repeat(PAGE_LENGTH));
    assert_eq!(out.len(), PAGE_LENGTH + ROWS);
    assert_eq!(out.lines().count(), ROWS);
    assert!(out.lines().all(|line| line == "x".repeat(COLUMNS)));
    assert!(out.ends_with('\n'));
}

#[test]
fn surround_puts_the_filler_around() {
    let filler: Vec<char> = "12345".chars().collect();
    assert_eq!(surround("ab", 2, &filler), "12ab345");
    assert_eq!(surround("ab", 0, &filler), "ab12345");
    assert_eq!(surround("ab", 5, &filler), "12345ab");
    assert_eq!(surround("", 3, &filler), "12345");
    assert_eq!(surround("ab", 0, &Vec::new()), "ab");
}

#[test]
fn random_filler_is_made_of_page_symbols() {
    let filler = random_filler(500);
    assert_eq!(filler.len(), 500);
    assert!(filler.iter().all(|c| BABEL_SET.contains(c)));
    assert!(filler.iter().any(|c| *c != filler[0]));
    assert!(random_filler(0).is_empty());
}

#[test]
fn pad_rand_fills_the_page_around_the_text() {
    let value = "needle in the hay";
    for _ in 0..20 {
        let page = pad_rand(value);
        assert_eq!(page.len(), PAGE_LENGTH);
        assert!(page.chars().all(|c| BABEL_SET.contains(&c)));
        let at = page.find(value).unwrap();
        assert!(at + value.len() < PAGE_LENGTH);
    }
}

#[test]
fn pad_rand_leaves_a_full_text_alone() {
    let text = "f".repeat(PAGE_LENGTH);
    assert_eq!(pad_rand(&text), text);
    let text = "g".repeat(PAGE_LENGTH + 17);
    assert_eq!(pad_rand(&text), text);
}

#[test]
fn pad_rand_of_nothing_is_a_random_page() {
    let page = pad_rand("");
    assert_eq!(page.len(), PAGE_LENGTH);
    assert!(page.chars().all(|c| BABEL_SET.contains(&c)));
    assert!(page.chars().any(|c| c != ' '));
}

#[test]
fn pad_rand_counts_room_in_bytes() {
    let page = pad_rand("\u{e9}");
    assert_eq!(page.len(), PAGE_LENGTH);
    assert_eq!(page.chars().count(), PAGE_LENGTH - 1);
    let text = "\u{e9}".repeat(PAGE_LENGTH / 2);
    assert_eq!(pad_rand(&text), text);
}

#[test]
fn pad_rand_moves_the_text_about() {
    let first = pad_rand("x y z").find("x y z");
    let mut moved = false;
    for _ in 0..64 {
        if pad_rand("x y z").find("x y z") != first {
            moved = true;
        }
    }
    assert!(moved);
}
