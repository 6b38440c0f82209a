use epoch::{convert_date, convert_epoch, convert_input, get_inputs};

#[test]
fn check_convert_epoch() {
    assert_eq!(convert_epoch("0"), String::from("2021-03-01"));
    assert_eq!(convert_epoch("10"), String::from("2021-03-11"));
    assert_eq!(convert_epoch("365-01"), String::from("2022-03-01"));
}

#[test]
fn check_convert_date() {
    assert_eq!(convert_date("2021-03-01"), Ok(String::from("0-01")));
    assert_eq!(convert_date("2022-04-22"), Ok(String::from("417-01")));
    assert_eq!(
        convert_date("2020-04-22"),
        Err("Date must be on or after 2021-03-01")
    );
}

#[test]
fn check_convert_input() {
    assert_eq!(convert_input("600-01"), Ok(String::from("2022-10-22")));
    assert_eq!(convert_input("2021-08-19"), Ok(String::from("171-01")));
    assert_eq!(convert_input(""), Err("Invalid epoch or date"));
    assert_eq!(convert_input("foobar"), Err("Invalid epoch or date"));
}

#[test]
fn check_get_inputs_1_arg() {
    let args = vec![String::from("epoch"), String::from("220-01")];
    assert_eq!(get_inputs(args), Ok(vec![String::from("220-01")]))
}

#[test]
fn check_get_inputs_2_arg() {
    let args = vec![
        String::from("epoch"),
        String::from("220-01"),
        String::from("2023-02-02"),
    ];
    assert_eq!(
        get_inputs(args),
        Ok(vec![String::from("220-01"), String::from("2023-02-02")])
    )
}

#[test]
fn check_get_inputs_error() {
    let args = vec![String::from("epoch")];
    assert_eq!(
        get_inputs(args),
        Err("You need to provide at least one epoch or date")
    )
}

#[test]
fn round_trip_examples() {
    // Epoch to date and back yields the day count with the fixed sub-index.
    let date = convert_epoch("10");
    assert_eq!(date, String::from("2021-03-11"));
    assert_eq!(convert_date(&date), Ok(String::from("10-01")));

    let date = convert_epoch("417");
    assert_eq!(convert_date(&date), Ok(String::from("417-01")));

    let date = convert_epoch("0");
    assert_eq!(convert_date(&date), Ok(String::from("0-01")));
}

#[test]
fn leap_year_dates() {
    assert_eq!(convert_input("2024-02-29"), Ok(String::from("1095-01")));
    assert_eq!(convert_epoch("1095"), String::from("2024-02-29"));
    assert_eq!(convert_epoch("1096"), String::from("2024-03-01"));
}

#[test]
fn century_leap_rule() {
    // 2100 has no February 29th, while 2400 does.
    assert_eq!(convert_input("2100-02-29"), Err("Invalid epoch or date"));
    assert!(convert_input("2400-02-29").is_ok());
}

#[test]
fn malformed_dates_are_invalid() {
    assert_eq!(convert_input("2021-02-30"), Err("Invalid epoch or date"));
    assert_eq!(convert_input("2021-13-01"), Err("Invalid epoch or date"));
    assert_eq!(convert_input("2021-00-10"), Err("Invalid epoch or date"));
    assert_eq!(convert_input("2021-04-00"), Err("Invalid epoch or date"));
    assert_eq!(convert_input("2021-3-1"), Err("Invalid epoch or date"));
    assert_eq!(convert_input("2021-03-01x"), Err("Invalid epoch or date"));
    assert_eq!(convert_input("-123"), Err("Invalid epoch or date"));
    assert_eq!(convert_input("600-001"), Err("Invalid epoch or date"));
    assert_eq!(convert_input("600-1"), Err("Invalid epoch or date"));
}

#[test]
fn day_before_reference_is_refused() {
    assert_eq!(
        convert_input("2021-02-28"),
        Err("Date must be on or after 2021-03-01")
    );
}

#[test]
fn sub_index_is_ignored() {
    assert_eq!(convert_epoch("600-99"), String::from("2022-10-22"));
    assert_eq!(convert_input("600-99"), Ok(String::from("2022-10-22")));
}

#[test]
fn epoch_range_limits() {
    // The last representable date, and the first day count past it.
    assert_eq!(convert_input("2914209"), Ok(String::from("9999-12-31")));
    assert_eq!(convert_input("9999-12-31"), Ok(String::from("2914209-01")));
    assert_eq!(convert_input("2914210"), Err("Invalid epoch or date"));
    assert_eq!(
        convert_input("99999999999999999999"),
        Err("Invalid epoch or date")
    );
}

#[test]
fn get_inputs_keeps_order() {
    let args = vec![
        String::from("epoch"),
        String::from("1"),
        String::from("2"),
        String::from("3"),
    ];
    assert_eq!(
        get_inputs(args),
        Ok(vec![String::from("1"), String::from("2"), String::from("3")])
    )
}
