use secrets::separate_values_by_eq;
use secrets::Secret;
use secrets::SecretError;

#[test]
fn tell_test() {
    let secrets = Secret::new(
        "DATABASE=abcd\n\nPASSWORD=B3x03#?..[]\nSPACECHARACTERS=    t   \nGREG=123a##!!~\n",
    );
    assert_eq!(String::from("abcd"), secrets.tell("DATABASE").unwrap());
    assert_eq!(String::from("B3x03#?..[]"), secrets.tell("PASSWORD").unwrap());
    assert_eq!(String::from("t"), secrets.tell("SPACECHARACTERS").unwrap());
    assert_eq!(String::from("123a##!!~"), secrets.tell("GREG").unwrap());
}

#[test]
fn separate_values() {
    let line = "DATABASE=abcd";
    let expected = (String::from("DATABASE"), String::from("abcd"));
    let result = separate_values_by_eq(line).unwrap();
    assert_eq!(expected, result);

    let line = "PASSWORD=B3x03#?..[]";
    let expected = (String::from("PASSWORD"), String::from("B3x03#?..[]"));
    let result = separate_values_by_eq(line).unwrap();
    assert_eq!(expected, result);

    let line = "SPACECHARACTERS=    t   ";
    let expected = (String::from("SPACECHARACTERS"), String::from("t"));
    let result = separate_values_by_eq(line).unwrap();
    assert_eq!(expected, result);
}

#[test]
fn parse_test_file() {
    let secrets = Secret::new(
        "DATABASE=abcd\n\nPASSWORD=B3x03#?..[]\nSPACECHARACTERS=    t   \nGREG=123a##!!~\n",
    );
    assert!(secrets.tell("DATABASE").is_ok());
    assert_eq!(secrets.tell("DATABASE").unwrap(), String::from("abcd"));
    assert_eq!(secrets.tell("PASSWORD").unwrap(), String::from("B3x03#?..[]"));
    assert_eq!(secrets.tell("SPACECHARACTERS").unwrap(), String::from("t"));
    assert_eq!(secrets.tell("GREG").unwrap(), String::from("123a##!!~"));
    assert!(matches!(secrets.tell(""), Err(SecretError::KeyNotFound(_))));
}

#[test]
fn repeated_lookups_identical() {
    let secrets = Secret::new("A=1\nB=2");
    let first = secrets.tell("A").unwrap();
    let second = secrets.tell("A").unwrap();
    assert_eq!(first, second);
    assert_eq!(first, String::from("1"));
}

#[test]
fn whitespace_around_value_trimmed() {
    let padded = Secret::new("KEY=   value   ");
    let bare = Secret::new("KEY=value");
    assert_eq!(padded.tell("KEY").unwrap(), String::from("value"));
    assert_eq!(padded.tell("KEY").unwrap(), bare.tell("KEY").unwrap());
}

#[test]
fn whitespace_around_key_trimmed() {
    let secrets = Secret::new("  KEY  =value");
    assert_eq!(secrets.tell("KEY").unwrap(), String::from("value"));
}

#[test]
fn blank_and_delimiterless_lines_skipped() {
    let secrets = Secret::new("\n\nthis line has no delimiter\nA=1\n   \n");
    assert_eq!(secrets.tell("A").unwrap(), String::from("1"));
    assert!(matches!(
        secrets.tell("this line has no delimiter"),
        Err(SecretError::KeyNotFound(_))
    ));
}

#[test]
fn duplicate_key_last_wins() {
    let secrets = Secret::new("A=1\nB=middle\nA=2");
    assert_eq!(secrets.tell("A").unwrap(), String::from("2"));
    assert_eq!(secrets.tell("B").unwrap(), String::from("middle"));
}

#[test]
fn missing_key_reports_key_not_found() {
    let secrets = Secret::new("A=1");
    let err = secrets.tell("MISSING").unwrap_err();
    assert!(matches!(err, SecretError::KeyNotFound(k) if k == "MISSING"));
}

#[test]
fn delimiterless_line_reports_malformed() {
    let err = separate_values_by_eq("no delimiter here").unwrap_err();
    assert!(matches!(err, SecretError::MalformedLine(l) if l == "no delimiter here"));
}

#[test]
fn value_keeps_later_delimiters() {
    let secrets = Secret::new("KEY=a=b");
    assert_eq!(secrets.tell("KEY").unwrap(), String::from("a=b"));
}

#[test]
fn empty_value_is_valid() {
    let secrets = Secret::new("K=");
    assert_eq!(secrets.tell("K").unwrap(), String::from(""));
}

#[test]
fn empty_key_is_valid() {
    let secrets = Secret::new("=v");
    assert_eq!(secrets.tell("").unwrap(), String::from("v"));
}

#[test]
fn carriage_returns_trimmed() {
    let secrets = Secret::new("A=1\r\nB=2\r\n");
    assert_eq!(secrets.tell("A").unwrap(), String::from("1"));
    assert_eq!(secrets.tell("B").unwrap(), String::from("2"));
}

#[test]
fn empty_text_has_no_entries() {
    let secrets = Secret::new("");
    assert!(matches!(secrets.tell("A"), Err(SecretError::KeyNotFound(_))));
}

#[test]
fn lookup_is_case_sensitive() {
    let secrets = Secret::new("Key=v");
    assert_eq!(secrets.tell("Key").unwrap(), String::from("v"));
    assert!(matches!(secrets.tell("KEY"), Err(SecretError::KeyNotFound(_))));
    assert!(matches!(secrets.tell("key"), Err(SecretError::KeyNotFound(_))));
}
