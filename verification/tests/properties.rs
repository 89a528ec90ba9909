use battle_server::properties::{
    is_space, parse_number, parse_number_list, split_at_commas, trim,
};
use battle_server::tick::SimEvents;
use battle_server::volley::{hit_chance, schedule_volley, server_preprocess};

fn chars(text: &str) -> Vec<char> {
    text.chars().collect()
}

#[test]
fn white_space_is_what_the_standard_library_trims() {
    let mut c = 0u32;
    while c <= 0x10FFFF {
        if let Some(ch) = char::from_u32(c) {
            assert_eq!(is_space(ch), ch.is_whitespace(), "U+{:04X}", c);
        }
        c += 1;
    }
}

#[test]
fn trimming_agrees_with_the_standard_library() {
    for text in [
        "",
        " ",
        "  \t\n",
        "a",
        " a",
        "a ",
        "  12  ",
        "\u{a0}7\u{3000}",
        " a b ",
        "\u{2003}x y\u{85}",
        "[1, 2]",
    ] {
        assert_eq!(trim(&chars(text)), chars(text.trim_start().trim_end()), "{:?}", text);
    }
}

#[test]
fn numbers_agree_with_the_standard_library() {
    for text in [
        "", "+", "-", "0", "7", "+7", "-7", "++7", "+-7", "007", "255", "256", "0255", "+255",
        "+256", "999", "1000", "99999999999999999999", "1 ", " 1", "1_0", "1.0", "0x10", "a",
        "12a", "\u{663}", "2 5",
    ] {
        assert_eq!(parse_number(&chars(text)), text.parse::<u8>().ok(), "{:?}", text);
    }
    assert_eq!(parse_number(&chars("0")), Some(0));
    assert_eq!(parse_number(&chars("+200")), Some(200));
    assert_eq!(parse_number(&chars("255")), Some(255));
    assert_eq!(parse_number(&chars("256")), None);
}

#[test]
fn splitting_agrees_with_the_standard_library() {
    for text in ["", ",", "a", "a,b", ",a", "a,", "a,,b", ",,", "1, 2 ,3", "no comma"] {
        let expected: Vec<Vec<char>> = text.split(',').map(chars).collect();
        assert_eq!(split_at_commas(&chars(text)), expected, "{:?}", text);
    }
    assert_eq!(split_at_commas(&chars("")), vec![Vec::<char>::new()]);
    assert_eq!(split_at_commas(&chars("1,,2")), vec![chars("1"), chars(""), chars("2")]);
}

#[test]
fn a_list_of_numbers_is_read() {
    assert_eq!(parse_number_list("[1, 2, 3]"), Some(vec![1, 2, 3]));
    assert_eq!(parse_number_list("[7]"), Some(vec![7]));
    assert_eq!(parse_number_list("[ 0 ,255,+3 ]"), Some(vec![0, 255, 3]));
    assert_eq!(parse_number_list("[\t10\u{a0},\n20 ]"), Some(vec![10, 20]));
    assert_eq!(parse_number_list("[1,1,1,1,1,1]"), Some(vec![1; 6]));
}

#[test]
fn what_is_no_list_of_numbers_is_refused() {
    for text in [
        "", "[", "]", "1, 2", "[1, 2", "1, 2]", " [1]", "[1] ", "[]", "[ ]", "[1,]", "[,1]",
        "[1,,2]", "[1, 256]", "[1, -2]", "[1, a]", "[1 2]", "[[1]]", "[1.5]", "(1, 2)", "][",
    ] {
        assert_eq!(parse_number_list(text), None, "{:?}", text);
    }
}

#[test]
fn the_chance_of_a_hit_falls_with_thrust_down_to_a_quarter() {
    assert_eq!(hit_chance(0), 20);
    assert_eq!(hit_chance(1), 17);
    assert_eq!(hit_chance(2), 14);
    assert_eq!(hit_chance(3), 11);
    assert_eq!(hit_chance(4), 8);
    assert_eq!(hit_chance(5), 5);
    assert_eq!(hit_chance(6), 5);
    assert_eq!(hit_chance(255), 5);
}

#[test]
fn every_projectile_hits_a_target_at_rest() {
    let mut hits = vec![false; 64];
    server_preprocess(&mut hits, Some(0));
    assert_eq!(hits, vec![true; 64]);
}

#[test]
fn without_a_target_nothing_is_decided() {
    let mut hits = vec![true, false, true];
    server_preprocess(&mut hits, None);
    assert_eq!(hits, vec![true, false, true]);
    let mut none: Vec<bool> = Vec::new();
    server_preprocess(&mut none, Some(3));
    assert!(none.is_empty());
}

#[test]
fn about_a_quarter_of_the_projectiles_hit_a_target_at_full_thrust() {
    let mut hits = vec![false; 8000];
    server_preprocess(&mut hits, Some(9));
    let count = hits.iter().filter(|h| **h).count();
    assert!(count > 1400 && count < 2600, "{} of 8000", count);
    let mut hits = vec![true; 8000];
    server_preprocess(&mut hits, Some(9));
    let count = hits.iter().filter(|h| **h).count();
    assert!(count > 1400 && count < 2600, "{} of 8000", count);
}

#[test]
fn the_hits_that_were_drawn_are_the_impacts_that_are_scheduled() {
    let mut hits = vec![false; 5];
    server_preprocess(&mut hits, Some(2));
    let mut events = SimEvents::new();
    schedule_volley(&mut events, &hits, 1, 9);
    assert_eq!(events.len(), hits.iter().filter(|h| **h).count());
    for (i, hit) in hits.iter().enumerate() {
        let tick = 40 + 10 * i as u32;
        assert_eq!(events.apply_tick(tick).len(), if *hit { 1 } else { 0 });
    }
}
