use sqlbridge::auth::{AuthenticatorFactory, FileStorage, FileStorageError};
use sqlbridge::codec::check_token;
use sqlbridge::Config;

fn config_with_tokenfile(tokenfile: &[u8]) -> Config {
    Config {
        oauth_id: b"id".to_vec(),
        oauth_secret: b"secret".to_vec(),
        tokenfile: tokenfile.to_vec(),
        psql_url: b"postgresql://localhost/db".to_vec(),
        sqldir: b"./sql".to_vec(),
        script_id: b"script".to_vec(),
        func_name: b"append_row".to_vec(),
        spreadsheet_url: b"https://sheets.example/1".to_vec(),
    }
}

#[test]
fn empty_file_loads_as_empty_map() {
    let st = FileStorage::new(&Vec::new()).unwrap();
    assert_eq!(st.get(1), None);
    assert_eq!(st.save(), None);
}

#[test]
fn one_byte_file_loads_as_empty_map() {
    let st = FileStorage::new(&b"\n".to_vec()).unwrap();
    assert_eq!(st.get(42), None);
    assert_eq!(st.save(), None);
}

#[test]
fn empty_object_loads_as_empty_map() {
    let st = FileStorage::new(&b"{}".to_vec()).unwrap();
    assert_eq!(st.get(0), None);
    assert_eq!(st.save(), None);
}

#[test]
fn set_then_get_returns_token() {
    let mut st = FileStorage::new(&b"{}".to_vec()).unwrap();
    let token = b"{\"access_token\":\"abc\"}".to_vec();
    st.set(7, Some(token.clone()));
    assert_eq!(st.get(7), Some(token));
    assert_eq!(st.get(8), None);
}

#[test]
fn single_token_serializes_to_expected_file() {
    let mut st = FileStorage::new(&b"{}".to_vec()).unwrap();
    let token = b"{\"access_token\":\"abc\"}".to_vec();
    let saved = st.set(12345, Some(token)).unwrap();
    assert_eq!(saved, b"{\"12345\":{\"access_token\":\"abc\"}}".to_vec());
}

#[test]
fn round_trip_preserves_every_token() {
    let mut st = FileStorage::new(&Vec::new()).unwrap();
    let t1 = b"{\"access_token\":\"one\",\"expires\":3600}".to_vec();
    let t2 = b"{\"access_token\":\"two\"}".to_vec();
    let t3 = b"{\"nested\":{\"deep\":[1,2,{}]},\"s\":\"a\\\"b}{\"}".to_vec();
    st.set(1, Some(t1.clone()));
    st.set(18446744073709551615, Some(t2.clone()));
    let saved = st.set(0, Some(t3.clone())).unwrap();
    let reloaded = FileStorage::new(&saved).unwrap();
    assert_eq!(reloaded.get(1), Some(t1));
    assert_eq!(reloaded.get(18446744073709551615), Some(t2));
    assert_eq!(reloaded.get(0), Some(t3));
    assert_eq!(reloaded.get(2), None);
}

#[test]
fn overwriting_a_key_keeps_the_last_token() {
    let mut st = FileStorage::new(&b"{}".to_vec()).unwrap();
    st.set(5, Some(b"{\"v\":\"old\"}".to_vec()));
    let saved = st.set(5, Some(b"{\"v\":\"new\"}".to_vec())).unwrap();
    assert_eq!(st.get(5), Some(b"{\"v\":\"new\"}".to_vec()));
    assert_eq!(saved, b"{\"5\":{\"v\":\"new\"}}".to_vec());
}

#[test]
fn deletion_removes_key_from_map_and_file() {
    let mut st = FileStorage::new(&b"{}".to_vec()).unwrap();
    st.set(1, Some(b"{\"a\":\"1\"}".to_vec()));
    st.set(2, Some(b"{\"b\":\"2\"}".to_vec()));
    let saved = st.set(1, None).unwrap();
    assert_eq!(st.get(1), None);
    assert_eq!(st.get(2), Some(b"{\"b\":\"2\"}".to_vec()));
    assert_eq!(saved, b"{\"2\":{\"b\":\"2\"}}".to_vec());
}

#[test]
fn deleting_the_last_token_withholds_the_file() {
    let mut st = FileStorage::new(&b"{}".to_vec()).unwrap();
    st.set(1, Some(b"{\"a\":\"1\"}".to_vec()));
    let saved = st.set(1, None);
    assert_eq!(saved, None);
    assert_eq!(st.get(1), None);
}

#[test]
fn malformed_file_is_a_json_error() {
    assert_eq!(
        FileStorage::new(&b"[]".to_vec()).err(),
        Some(FileStorageError::Json)
    );
    assert_eq!(
        FileStorage::new(&b"{\"1\":{}".to_vec()).err(),
        Some(FileStorageError::Json)
    );
    assert_eq!(
        FileStorage::new(&b"{\"x\":{}}".to_vec()).err(),
        Some(FileStorageError::Json)
    );
    assert_eq!(
        FileStorage::new(&b"{\"1\":{}}trail".to_vec()).err(),
        Some(FileStorageError::Json)
    );
}

#[test]
fn oversized_or_padded_keys_are_json_errors() {
    assert_eq!(
        FileStorage::new(&b"{\"99999999999999999999\":{}}".to_vec()).err(),
        Some(FileStorageError::Json)
    );
    assert_eq!(
        FileStorage::new(&b"{\"01\":{}}".to_vec()).err(),
        Some(FileStorageError::Json)
    );
}

#[test]
fn repeated_key_in_file_keeps_the_later_token() {
    let st = FileStorage::new(&b"{\"5\":{\"a\":\"1\"},\"5\":{\"a\":\"2\"}}".to_vec()).unwrap();
    assert_eq!(st.get(5), Some(b"{\"a\":\"2\"}".to_vec()));
}

#[test]
fn loaded_file_round_trips_through_save() {
    let content = b"{\"3\":{\"t\":\"x\"},\"9\":{\"t\":\"y\"}}".to_vec();
    let st = FileStorage::new(&content).unwrap();
    assert_eq!(st.save(), Some(content));
}

#[test]
fn tokenfile_path_prefers_the_configured_one() {
    let c = config_with_tokenfile(b"/var/lib/bridge/tokens.json");
    assert_eq!(
        AuthenticatorFactory::tokenfile_path(&c),
        b"/var/lib/bridge/tokens.json".to_vec()
    );
}

#[test]
fn tokenfile_path_defaults_when_unset() {
    let c = config_with_tokenfile(b"");
    assert_eq!(
        AuthenticatorFactory::tokenfile_path(&c),
        b"./tokens.json".to_vec()
    );
}

#[test]
fn check_token_accepts_only_object_texts() {
    assert!(check_token(&b"{}".to_vec()));
    assert!(check_token(&b"{\"a\":\"}{\\\"\"}".to_vec()));
    assert!(!check_token(&b"{".to_vec()));
    assert!(!check_token(&b"[]".to_vec()));
    assert!(!check_token(&b"{}x".to_vec()));
}

#[test]
fn whitespace_in_the_file_is_tolerated() {
    let content = b" {\n\t\"1\" : {\"access_token\":\"a\"} ,\r\n \"2\":{} }\n".to_vec();
    let st = FileStorage::new(&content).unwrap();
    assert_eq!(st.get(1), Some(b"{\"access_token\":\"a\"}".to_vec()));
    assert_eq!(st.get(2), Some(b"{}".to_vec()));
    assert_eq!(st.save(), Some(b"{\"1\":{\"access_token\":\"a\"},\"2\":{}}".to_vec()));
}

#[test]
fn escaped_key_digits_are_tolerated() {
    let st = FileStorage::new(&b"{\"\\u0031\":{}}".to_vec()).unwrap();
    assert_eq!(st.get(1), Some(b"{}".to_vec()));
    let st = FileStorage::new(&b"{\"1\\u0032\":{}}".to_vec()).unwrap();
    assert_eq!(st.get(12), Some(b"{}".to_vec()));
}

#[test]
fn escaped_leading_zero_is_still_a_json_error() {
    assert_eq!(
        FileStorage::new(&b"{\"\\u0030\\u0031\":{}}".to_vec()).err(),
        Some(FileStorageError::Json)
    );
}

#[test]
fn trailing_whitespace_is_fine_but_trailing_text_is_not() {
    assert!(FileStorage::new(&b"{\"1\":{}}  \n".to_vec()).is_ok());
    assert!(FileStorage::new(&b"  {  }  ".to_vec()).is_ok());
    assert_eq!(
        FileStorage::new(&b"{\"1\":{}} x".to_vec()).err(),
        Some(FileStorageError::Json)
    );
}
