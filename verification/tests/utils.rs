use tasklist::utils::{
    decimal_string, digit_of, err_invalid_task_id, err_no_task, get_file_path, get_priority,
    get_task_id, pad_left, parse_number, read_digits, push_spaces, remove_first, NumberOfDigits, ERR_COMPLETE,
    ERR_INVALID_TASK_ID, ERR_SAVE, ERR_START, ERR_SUCCESS,
};

#[test]
fn digits_of_small_numbers() {
    assert_eq!(0usize.number_of_digits(), 1);
    assert_eq!(9usize.number_of_digits(), 1);
    assert_eq!(10usize.number_of_digits(), 2);
    assert_eq!(99usize.number_of_digits(), 2);
    assert_eq!(100usize.number_of_digits(), 3);
    assert_eq!(999_999_999usize.number_of_digits(), 9);
    assert_eq!(1_000_000_000usize.number_of_digits(), 10);
}

#[test]
fn digits_of_large_numbers() {
    assert_eq!(9_999_999_999usize.number_of_digits(), 10);
    assert_eq!(10_000_000_000usize.number_of_digits(), 11);
    assert_eq!(usize::MAX.number_of_digits(), usize::MAX.to_string().len());
}

#[test]
fn decimal_writing() {
    assert_eq!(decimal_string(0), "0");
    assert_eq!(decimal_string(7), "7");
    assert_eq!(decimal_string(10), "10");
    assert_eq!(decimal_string(1234567890), "1234567890");
    assert_eq!(decimal_string(usize::MAX), usize::MAX.to_string());
}

#[test]
fn first_character_is_removed() {
    assert_eq!(remove_first("#tag"), "tag");
    assert_eq!(remove_first("#"), "");
    assert_eq!(remove_first("\u{e9}t\u{e9}"), "t\u{e9}");
}

#[test]
fn padding_fills_on_the_left() {
    assert_eq!(pad_left("#7", 4), "  #7");
    assert_eq!(pad_left("#7", 2), "#7");
    assert_eq!(pad_left("#123", 2), "#123");
    assert_eq!(pad_left("\u{e9}", 2), " \u{e9}");
    assert_eq!(pad_left("", 3), "   ");
    assert_eq!(pad_left("", 0), "");
    let mut text = "ab".to_string();
    push_spaces(&mut text, 3);
    assert_eq!(text, "ab   ");
    push_spaces(&mut text, 0);
    assert_eq!(text, "ab   ");
}

#[test]
fn priority_from_the_command_line() {
    assert_eq!(get_priority(0, "5"), 3);
    assert_eq!(get_priority(0, "2"), 3);
    assert_eq!(get_priority(1, "5"), 5);
    assert_eq!(get_priority(1, "4"), 4);
    assert_eq!(get_priority(1, "9"), 5);
    assert_eq!(get_priority(1, "1"), 1);
    assert_eq!(get_priority(1, "3"), 3);
    assert_eq!(get_priority(1, "6"), 5);
    assert_eq!(get_priority(1, "255"), 5);
    assert_eq!(get_priority(1, "0"), 1);
    assert_eq!(get_priority(1, "256"), 5);
    assert_eq!(get_priority(1, "300"), 5);
    assert_eq!(get_priority(1, "-2"), 1);
    assert_eq!(get_priority(1, "-0"), 1);
    assert_eq!(get_priority(1, "+4"), 4);
    assert_eq!(get_priority(1, "004"), 4);
    assert_eq!(get_priority(1, "99999999999999999999999999999999999999"), 5);
    assert_eq!(get_priority(1, "-99999999999999999999999999999999999999"), 1);
    assert_eq!(get_priority(1, "high"), 3);
    assert_eq!(get_priority(1, ""), 3);
    assert_eq!(get_priority(1, "-"), 3);
    assert_eq!(get_priority(1, "+"), 3);
    assert_eq!(get_priority(1, "4.5"), 3);
    assert_eq!(get_priority(1, " 4"), 3);
    assert_eq!(get_priority(1, "4x"), 3);
    assert_eq!(get_priority(1, "--4"), 3);
    assert_eq!(get_priority(2, "5"), 3);
}

#[test]
fn file_path_prefers_the_chosen_file() {
    assert_eq!(
        get_file_path(Some("/tmp/list.json".to_string()), Some("/home/me".to_string())),
        Some("/tmp/list.json".to_string())
    );
    assert_eq!(
        get_file_path(None, Some("/home/me".to_string())),
        Some("/home/me/todo.json".to_string())
    );
    assert_eq!(get_file_path(Some("x".to_string()), None), Some("x".to_string()));
    assert_eq!(get_file_path(None, None), None);
}

#[test]
fn messages() {
    assert_eq!(err_no_task(42), "Could not find task with ID 42");
    assert_eq!(err_invalid_task_id("4x"), "Invalid task id: 4x");
}

#[test]
fn exit_codes() {
    assert_eq!(ERR_SUCCESS, 0);
    assert_eq!(ERR_SAVE, 1);
    assert_eq!(ERR_INVALID_TASK_ID, 2);
    assert_eq!(ERR_COMPLETE, 3);
    assert_eq!(ERR_START, 4);
}

#[test]
fn numbers_are_read_as_the_standard_library_reads_them() {
    let texts = [
        "0", "7", "42", "007", "+5", "+", "", "-0", "-3", " 1", "1 ", "1_0", "12a", "a12", "++1",
        "255", "256", "18446744073709551615", "18446744073709551616", "99999999999999999999999",
        "\u{662}", "1.5", "0x10", "+0", "000000000000000000000000000001",
    ];
    for text in texts {
        assert_eq!(parse_number(text, u64::MAX), text.parse::<u64>().ok(), "{:?}", text);
        assert_eq!(
            parse_number(text, 255),
            text.parse::<u8>().ok().map(u64::from),
            "{:?}",
            text
        );
    }
}

#[test]
fn numbers_above_the_limit_are_refused() {
    assert_eq!(parse_number("10", 10), Some(10));
    assert_eq!(parse_number("11", 10), None);
    assert_eq!(parse_number("0", 0), Some(0));
    assert_eq!(parse_number("1", 0), None);
    assert_eq!(parse_number("9", 5), None);
}

#[test]
fn digits() {
    assert_eq!(digit_of('0'), Some(0));
    assert_eq!(digit_of('9'), Some(9));
    assert_eq!(digit_of('a'), None);
    assert_eq!(digit_of('/'), None);
    assert_eq!(digit_of(':'), None);
}

#[test]
fn task_id_from_the_command_line() {
    assert_eq!(get_task_id("12"), Ok(12));
    assert_eq!(get_task_id("+12"), Ok(12));
    assert_eq!(get_task_id("0"), Ok(0));
    assert_eq!(get_task_id("4x"), Err("Invalid task id: 4x".to_string()));
    assert_eq!(get_task_id(""), Err("Invalid task id: ".to_string()));
    assert_eq!(get_task_id("-1"), Err("Invalid task id: -1".to_string()));
}

#[test]
fn priority_agrees_with_the_nearest_priority_of_any_integer() {
    for number in -300i64..=300 {
        let expected = number.clamp(1, 5) as u8;
        assert_eq!(get_priority(1, &number.to_string()), expected, "{}", number);
        assert_eq!(get_priority(0, &number.to_string()), 3);
    }
}

#[test]
fn digits_are_read_up_to_a_cap() {
    assert_eq!(read_digits("0", 6), Some(0));
    assert_eq!(read_digits("5", 6), Some(5));
    assert_eq!(read_digits("6", 6), Some(6));
    assert_eq!(read_digits("7", 6), Some(6));
    assert_eq!(read_digits("123456789012345678901234567890", 6), Some(6));
    assert_eq!(read_digits("0000", 6), Some(0));
    assert_eq!(read_digits("12", u64::MAX), Some(12));
    assert_eq!(read_digits("18446744073709551615", u64::MAX), Some(u64::MAX));
    assert_eq!(read_digits("18446744073709551616", u64::MAX), Some(u64::MAX));
    assert_eq!(read_digits("5", 0), Some(0));
    assert_eq!(read_digits("", 6), None);
    assert_eq!(read_digits("1a", 6), None);
    assert_eq!(read_digits("99999999999999999999999a", 6), None);
    assert_eq!(read_digits("+1", 6), None);
}
