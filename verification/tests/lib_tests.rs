use lunr::utils::as_string;

#[test]
fn it_works() {}

#[test]
fn as_string_of_value_and_of_nothing() {
    assert_eq!("abc", as_string(Some("abc")));
    assert_eq!("", as_string(None));
}
