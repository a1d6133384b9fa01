use model_viewer::text::{decimal_digits, format_count, mesh_heading, numbered, primitive_key};

#[test]
fn format_count_small_numbers_have_no_commas() {
    assert_eq!(format_count(0), "0");
    assert_eq!(format_count(7), "7");
    assert_eq!(format_count(42), "42");
    assert_eq!(format_count(999), "999");
}

#[test]
fn format_count_groups_by_three() {
    assert_eq!(format_count(1000), "1,000");
    assert_eq!(format_count(12345), "12,345");
    assert_eq!(format_count(123456), "123,456");
    assert_eq!(format_count(1234567), "1,234,567");
    assert_eq!(format_count(1000000), "1,000,000");
}

#[test]
fn format_count_of_the_largest_count() {
    let expected = {
        let s = usize::MAX.to_string();
        let mut out = String::new();
        for (i, c) in s.chars().enumerate() {
            if i > 0 && (s.len() - i) % 3 == 0 {
                out.push(',');
            }
            out.push(c);
        }
        out
    };
    assert_eq!(format_count(usize::MAX), expected);
}

#[test]
fn format_count_keeps_the_digits() {
    for n in [0usize, 5, 10, 999, 1000, 65536, 9876543210] {
        assert_eq!(format_count(n).replace(',', ""), n.to_string());
    }
}

#[test]
fn decimal_digits_are_the_decimal_form() {
    let ds: String = decimal_digits(90210).into_iter().collect();
    assert_eq!(ds, "90210");
    let zero: String = decimal_digits(0).into_iter().collect();
    assert_eq!(zero, "0");
}

#[test]
fn numbered_appends_the_index() {
    assert_eq!(numbered("Primitive ", 0), "Primitive 0");
    assert_eq!(numbered("Material ", 12), "Material 12");
}

#[test]
fn primitive_key_joins_with_a_slash() {
    assert_eq!(primitive_key("Body", "Skin"), "Body/Skin");
    assert_eq!(primitive_key("", ""), "/");
}

#[test]
fn mesh_heading_shows_the_primitive_count() {
    assert_eq!(mesh_heading("Body", 3), "Body (3)");
    assert_eq!(mesh_heading("Hair", 1024), "Hair (1024)");
}
