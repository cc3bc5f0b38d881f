use playground::iterator_sample::{
    body_lines, fizz_buzz, header_lines, is_long_enough, is_space_char, key_order, lines,
    long_lines, maximum, minimum, product, sum, triangle, trim, KeyOrder, SampleRange, TextMap,
};

#[test]
fn triangle_of_small_numbers() {
    assert_eq!(1, triangle(1));
    assert_eq!(3, triangle(2));
    assert_eq!(55, triangle(10));
    assert_eq!(0, triangle(0));
    assert_eq!(0, triangle(-4));
}

#[test]
fn long_trimmed_lines_of_the_sample_text() {
    let v = long_lines("ab \n harry potter \n test");
    assert_eq!(v, vec!["harry potter", "test"]);
}

#[test]
fn lines_follow_str_lines() {
    for text in ["", "a", "a\n", "a\r\nb", "a\n\nb\n", "\n", "x\r", "a\rb\n", "é\r\n\r\n"] {
        let expected: Vec<&str> = text.lines().collect();
        assert_eq!(lines(text), expected, "text {:?}", text);
    }
}

#[test]
fn trim_follows_str_trim() {
    for text in ["", "  ", " a b ", "\t\u{3000}x\u{85}", "\u{A0}y\u{2009}", "z"] {
        assert_eq!(trim(text), text.trim());
    }
    assert!(is_space_char('\u{2028}'));
    assert!(!is_space_char('\u{200B}'));
}

#[test]
fn length_is_counted_in_bytes() {
    assert!(!is_long_enough("ab"));
    assert!(is_long_enough("abc"));
    assert!(is_long_enough("é¢"));
    assert!(!is_long_enough("é"));
    assert_eq!(long_lines("éé\né"), vec!["éé"]);
}

#[test]
fn header_and_body_of_a_message() {
    let body = "TO AAA\r\nFROM MARIA \r\n\r\nHi, AAA\r\nHow are you?\r\n";
    assert_eq!(header_lines(body), vec!["TO AAA", "FROM MARIA "]);
    assert_eq!(body_lines(body), vec!["Hi, AAA", "How are you?"]);
    assert_eq!(header_lines("no blank"), vec!["no blank"]);
    assert!(body_lines("no blank").is_empty());
}

#[test]
fn fizz_buzz_pairs_up_to_nine() {
    let v = fizz_buzz(10);
    assert_eq!(v.len(), 9);
    assert_eq!(v[0], (1, ("", "")));
    assert_eq!(v[2], (3, ("fizz", "")));
    assert_eq!(v[4], (5, ("", "buzz")));
    assert_eq!(v[8], (9, ("fizz", "")));
    assert!(fizz_buzz(1).is_empty());
    assert_eq!(fizz_buzz(16)[14], (15, ("fizz", "buzz")));
}

#[test]
fn sum_product_min_max_of_the_sample_numbers() {
    let num = [1usize, 23, 4, 5];
    assert_eq!(sum(&num), 33);
    assert_eq!(product(&num), 460);
    assert_eq!(minimum(&num), Some(1));
    assert_eq!(maximum(&num), Some(23));
    assert_eq!(sum(&[]), 0);
    assert_eq!(product(&[]), 1);
    assert_eq!(minimum(&[]), None);
    assert_eq!(maximum(&[]), None);
}

#[test]
fn sample_range_hands_out_zero_to_four() {
    let mut r = SampleRange { start: 0, end: 5 };
    assert_eq!(r.drain(), vec![0, 1, 2, 3, 4]);
    assert_eq!(r.next(), None);
    let mut r = SampleRange { start: 3, end: 1 };
    assert_eq!(r.next(), None);
    assert!(r.drain().is_empty());
}

#[test]
fn parks_come_out_in_key_order() {
    let mut parks = TextMap::new();
    assert!(parks.insert("myoden", vec!["daiichi", "daini"]).is_none());
    assert!(parks.insert("gyotoku", vec!["ekimaehiroba", "daini"]).is_none());
    assert_eq!(parks.flat_values(), vec!["ekimaehiroba", "daini", "daiichi", "daini"]);
    assert_eq!(parks.insert("myoden", vec!["x"]), Some(vec!["daiichi", "daini"]));
    assert_eq!(parks.flat_values(), vec!["ekimaehiroba", "daini", "x"]);
}

#[test]
fn key_order_is_str_order() {
    let words = ["", "a", "ab", "b", "é", "z", "Z", "aé"];
    for a in words {
        for b in words {
            let expected = a.cmp(b);
            let got = key_order(a, b);
            match expected {
                std::cmp::Ordering::Less => assert!(matches!(got, KeyOrder::Before)),
                std::cmp::Ordering::Equal => assert!(matches!(got, KeyOrder::Same)),
                std::cmp::Ordering::Greater => assert!(matches!(got, KeyOrder::After)),
            }
        }
    }
}

#[test]
fn final_line_ending_adds_no_line() {
    assert_eq!(lines("a\nb"), lines("a\nb\n"));
    assert_eq!(lines("a\nb"), lines("a\nb\r\n"));
    // Where the law does not hold: an empty text, or one already ending a line.
    assert_ne!(lines(""), lines("\n"));
    assert_ne!(lines("a\n"), lines("a\n\n"));
    assert_ne!(lines("a\r"), lines("a\r\n"));
}

#[test]
fn header_blank_line_and_body_make_the_message() {
    let text = "A: 1\nB: 2\n\nhello\n\nbye";
    let mut joined = header_lines(text);
    joined.push("");
    joined.extend(body_lines(text));
    assert_eq!(joined, lines(text));
}

#[test]
fn insert_then_look_up() {
    let mut m = TextMap::new();
    m.insert("b", vec!["2"]);
    m.insert("a", vec!["1"]);
    m.insert("c", vec!["3"]);
    assert_eq!(m.insert("b", vec!["two"]), Some(vec!["2"]));
    assert_eq!(m.flat_values(), vec!["1", "two", "3"]);
}
