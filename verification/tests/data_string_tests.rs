use data_string::DataString;

const TEST_SLICE: &[u8; 30] = b"Want binary? Here's data: \x1A\x1A\x1A\x1A";

fn get_test_data() -> Vec<u8> {
    let mut data: Vec<u8> = b"Want binary? Here's data: ".iter().map(|r| *r).collect();
    data.extend(vec![128, 199, 200, 255]);
    data
}

fn get_string_equivalent() -> String {
    "Want binary? Here's data: \x1A\x1A\x1A\x1A".to_string()
}

fn get_expected_display_string() -> String {
    "Want binary? Here's data: \u{fffd}\u{fffd}\u{fffd}\u{fffd}".to_string()
}

#[test]
fn basic_test() {
    let data = get_test_data();
    let data_copy = data.clone();
    let mut d_string = DataString::from_vec(data);
    let test_output = d_string.display_string();
    assert_eq!(test_output, get_expected_display_string());
    let data_ref: Vec<u8> = d_string.byte_view();
    let string_ref: String = d_string.string_view();
    assert_eq!(data_ref, TEST_SLICE.to_vec());
    assert_eq!(string_ref, get_string_equivalent());
    let reconstituted_data = d_string.take_data();
    assert_eq!(Some(data_copy), reconstituted_data);
}

#[test]
fn no_double_borrows() {
    let data = get_test_data();
    let mut d_string = DataString::from_vec(data);
    assert_eq!(d_string.take_string(), Some(get_string_equivalent()));
    assert_eq!(d_string.take_string(), None);
    assert_eq!(d_string.take_data(), None);
}

#[test]
fn no_double_returns() {
    let data = get_test_data();
    let mut d_string = DataString::from_vec(data);
    let new_data = vec![1, 2, 3];
    let copied_new_data = new_data.clone();
    assert_eq!(d_string.return_data_unchecked(new_data), Some(copied_new_data));
    let new_string = "test".to_string();
    let copied_new_string = new_string.clone();
    assert_eq!(d_string.return_string(new_string), Some(copied_new_string));
}

#[test]
fn data_borrow_works() {
    let data = get_test_data();
    let mut d_string = DataString::from_vec(data);
    let borrowed_data = d_string.take_data();
    assert_eq!(borrowed_data, Some(get_test_data()));
    assert_eq!(d_string.return_data_unchecked(borrowed_data.unwrap()), None);
    assert_eq!(d_string.take_data().unwrap(), get_test_data());
}

#[test]
fn string_borrow_works() {
    let data = get_test_data();
    let mut d_string = DataString::from_vec(data);
    let borrowed_string = d_string.take_string();
    assert_eq!(borrowed_string, Some(get_string_equivalent()));
    assert_eq!(d_string.return_string(borrowed_string.unwrap()), None);
    assert_eq!(d_string.take_data().unwrap(), get_test_data());
}

#[test]
#[should_panic]
fn panic_if_data_modified() {
    let data = vec![b'a', 200, b'g'];
    let mut d_string = DataString::from_vec(data);
    let mut borrowed_data = d_string.take_data().unwrap();
    // Introducing invalid character at a new place
    borrowed_data[0] = 200;
    d_string.return_data_unchecked(borrowed_data);
}

#[test]
fn round_trip_empty() {
    let mut d_string = DataString::from_vec(Vec::new());
    assert_eq!(d_string.take_data(), Some(Vec::new()));
}

#[test]
fn round_trip_all_high() {
    let data = vec![128u8, 255, 200, 128, 255];
    let mut d_string = DataString::from_vec(data.clone());
    assert_eq!(d_string.byte_view(), vec![26u8, 26, 26, 26, 26]);
    assert_eq!(d_string.take_data(), Some(data));
}

#[test]
fn masking_formula_exact() {
    let data = vec![0u8, 127, 128, 255, 26];
    let mut d_string = DataString::from_vec(data.clone());
    assert_eq!(d_string.byte_view(), vec![0u8, 127, 26, 26, 26]);
    assert_eq!(d_string.take_data(), Some(data));
}

#[test]
fn literal_sentinel_passthrough() {
    // A genuine 0x1A byte is left alone and never confused with a masked
    // position: reconstruction is driven by the table, not by re-scanning.
    let data = vec![26u8, 200, 26];
    let mut d_string = DataString::from_vec(data.clone());
    assert_eq!(d_string.byte_view(), vec![26u8, 26, 26]);
    assert_eq!(d_string.take_data(), Some(data));
}

#[test]
fn take_data_then_take_string_empty() {
    let mut d_string = DataString::from_vec(get_test_data());
    assert!(d_string.take_data().is_some());
    assert_eq!(d_string.take_string(), None);
    assert_eq!(d_string.take_data(), None);
}

#[test]
fn return_rejection_leaves_state() {
    let mut d_string = DataString::from_vec(get_test_data());
    let rejected = d_string.return_string("other".to_string());
    assert_eq!(rejected, Some("other".to_string()));
    assert_eq!(d_string.string_view(), get_string_equivalent());
}

#[test]
fn remask_restores_sentinels() {
    // Returning a buffer whose masked positions hold arbitrary bytes
    // succeeds and puts the sentinel back at exactly the recorded positions;
    // a later reconstruction replays the original values from the table.
    let data = vec![b'a', b'b', 0x80, b'c', 0xFF];
    let mut d_string = DataString::from_vec(data.clone());
    let mut borrowed = d_string.take_data().unwrap();
    assert_eq!(borrowed, data);
    borrowed[2] = 200; // masked position: any byte is allowed here
    borrowed[4] = 5; // masked position: a 7-bit byte is allowed too
    assert_eq!(d_string.return_data_unchecked(borrowed), None);
    assert_eq!(d_string.byte_view(), vec![b'a', b'b', 26, b'c', 26]);
    assert_eq!(d_string.take_data(), Some(data));
}

#[test]
fn return_string_may_substitute_text() {
    let mut d_string = DataString::from_vec(vec![200u8]);
    assert_eq!(d_string.take_string(), Some("\x1A".to_string()));
    assert_eq!(d_string.return_string("\u{e9}".to_string()), None);
    assert_eq!(d_string.string_view(), "\u{e9}".to_string());
    // The first byte of the substituted text sits at the recorded position,
    // so reconstruction overwrites it with the recorded value 200.
    assert_eq!(d_string.take_data(), Some(vec![200u8, 0xA9]));
}

#[test]
fn empty_value_views() {
    let mut d_string = DataString::from_vec(get_test_data());
    assert!(d_string.take_string().is_some());
    assert_eq!(d_string.display_string(), String::new());
    assert_eq!(d_string.string_view(), String::new());
    assert_eq!(d_string.byte_view(), Vec::<u8>::new());
}

#[test]
fn display_of_plain_text() {
    let data = b"plain".to_vec();
    let d_string = DataString::from_vec(data);
    assert_eq!(d_string.display_string(), "plain".to_string());
    assert_eq!(d_string.string_view(), "plain".to_string());
}
