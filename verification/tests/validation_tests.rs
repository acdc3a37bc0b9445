//! Tests of the field validators and their criteria reports.

use siip_node::validation::check_domain;
use siip_node::validation::check_email;
use siip_node::validation::check_info;
use siip_node::validation::check_ip;
use siip_node::validation::check_key;
use siip_node::validation::check_name;
use siip_node::rpc::SiipRpcStruct;

fn report(bytes: Vec<u8>) -> String {
    String::from_utf8(bytes).unwrap()
}

fn passes(bytes: Vec<u8>) -> bool {
    !report(bytes).contains("Err:")
}

#[test]
fn ip_criteria() {
    // a valid address passes all four criteria
    let r = report(check_ip(b"13.49.70.106"));
    assert_eq!(
        r,
        "Ok: Must be a valid string\n\
         Ok: There must be three periods\n\
         Ok: There must be four sections (separated by periods)\n\
         Ok: Numbers must be between 0 and 255\n"
    );

    assert!(!passes(check_ip(b"256.256.256.256")));
    assert!(!passes(check_ip(b"2001:0db8:85a3:0000:0000:8a2e:0370:7334")));
    assert!(!passes(check_ip(b"-1.-1.-1.-1")));
    assert!(!passes(check_ip(b"1.2.3")));
    assert!(!passes(check_ip(b"1.2.3.")));
    assert!(!passes(check_ip(b"")));
    // leading zeros and a plus sign parse the way `u8` parses from a string
    assert!(passes(check_ip(b"001.2.3.004")));
    assert!(passes(check_ip(b"+1.2.3.4")));
}

#[test]
fn key_criteria() {
    assert!(!passes(check_key(b"G")));
    assert!(!passes(check_key(b"01/02/56")));
    assert!(!passes(check_key(b":::::")));
    assert!(passes(check_key(b"B4:02:EE:13")));
    assert!(passes(check_key(b"01:23:45:67:89:AB:CD:EF")));
    // lowercase digits are rejected, as is a trailing separator
    assert!(!passes(check_key(b"b4:02")));
    assert!(!passes(check_key(b"B4:02:")));
    // the empty key passes: there is no misplaced character
    assert!(passes(check_key(b"")));
}

#[test]
fn domain_criteria() {
    assert!(passes(check_domain(b"adrianteigen.com")));
    assert!(passes(check_domain(b"a.b.com")));
    // uppercase letters fail validation (the registry folds before checking)
    assert!(!passes(check_domain(b"AdrianTeigen.com")));
    // no top-level label
    assert!(!passes(check_domain(b"nodots")));
    // top-level label too short, subdomain empty
    assert!(!passes(check_domain(b"a.x")));
    assert!(!passes(check_domain(b".com")));
    // forbidden characters
    assert!(!passes(check_domain(b"a_b.com")));
    assert!(!passes(check_domain(b"a b.com")));
    // 63 characters is fine, 64 is not
    let long_label = "a".repeat(59);
    assert!(passes(check_domain(format!("{}.com", long_label).as_bytes())));
    let too_long = "a".repeat(60);
    assert!(!passes(check_domain(format!("{}.com", too_long).as_bytes())));
}

#[test]
fn name_criteria() {
    assert!(passes(check_name(b"Adrian Teigen")));
    assert!(!passes(check_name(b"")));
    // invalid UTF-8 ends the report after its first criterion
    let r = report(check_name(&[0xff, 0xfe]));
    assert_eq!(r, "Err: Must be a valid string\n");
}

#[test]
fn info_criteria() {
    assert!(passes(check_info(b"{}")));
    assert!(passes(check_info(
        b"{ \"Algorithm\": \"RSA\",   \"Key Size\": \"32\",   \"Exponent\": \"65537\" }"
    )));
    assert!(!passes(check_info(b"This }{{ is not valid json formatting.")));
    assert!(!passes(check_info(b"")));
    assert!(passes(check_info(b"[1, 2, 3]")));
}

#[test]
fn email_criteria() {
    assert!(passes(check_email(b"user@example.com")));
    assert!(!passes(check_email(b"@example.com")));
    assert!(!passes(check_email(b"user@")));
    assert!(!passes(check_email(b"userexample.com")));
    // top-level label must be 2 to 6 characters
    assert!(!passes(check_email(b"user@example.c")));
    assert!(!passes(check_email(b"user@example.toolong")));
    // uppercase is not allowed in either part
    assert!(!passes(check_email(b"User@example.com")));
    assert!(!passes(check_email(b"user@Example.com")));
}

#[test]
fn rpc_validation_endpoints() {
    let rpc = SiipRpcStruct::new(());
    assert!(!rpc.validate_name(String::from("Alice")).contains("Err:"));
    assert!(rpc.validate_name(String::new()).contains("Err:"));
    assert!(!rpc.validate_domain(String::from("abc.com")).contains("Err:"));
    assert!(rpc.validate_domain(String::from("Abc.com")).contains("Err:"));
    assert!(!rpc.validate_ip(String::from("127.0.0.1")).contains("Err:"));
    assert!(rpc.validate_ip(String::from("localhost")).contains("Err:"));
    assert!(!rpc.validate_info(String::from("{}")).contains("Err:"));
    assert!(rpc.validate_info(String::from("{")).contains("Err:"));
    assert!(!rpc.validate_key(String::from("12:12:12")).contains("Err:"));
    assert!(rpc.validate_key(String::from("G")).contains("Err:"));
    assert!(!rpc
        .validate_email(String::from("user@example.com"))
        .contains("Err:"));
    assert!(rpc.validate_email(String::from("G")).contains("Err:"));
}
