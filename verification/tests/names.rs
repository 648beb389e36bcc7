use hadris::iso::name::{convert_joliet3, convert_l1, convert_l2, convert_l3};
use hadris::iso::types::{EntryType, JolietLevel};

#[test]
fn test_convert_l1() {
    let orig = "this-is-the-original-file.@very-long-ext";
    let converted = convert_l1(orig, false);
    assert_eq!(converted.as_str(), "THIS_IS_._VE;1");
    let converted = convert_l1(orig, true);
    assert_eq!(converted.as_str(), "this_is_._ve;1");
}

#[test]
fn test_convert_l2_short_name() {
    let orig = "readme.txt";
    let converted = convert_l2(orig, false);
    assert_eq!(converted.as_str(), "README.TXT;1");
}

#[test]
fn test_convert_l2_long_name_truncation() {
    // Max is 30 bytes for name + 2 for ";1" = 32 total
    let orig = "this-is-a-very-long-filename-that-should-be-truncated.extension";
    let converted = convert_l2(orig, false);
    // Should be truncated to 30 bytes total (basename + dot + ext) + ";1"
    assert!(
        converted.len() <= 32,
        "L2 name too long: {}",
        converted.len()
    );
    assert!(converted.as_str().ends_with(";1"));
}

#[test]
fn test_convert_l2_no_extension() {
    let orig = "this-is-a-very-long-directory-name-without-extension";
    let converted = convert_l2(orig, false);
    assert!(
        converted.len() <= 32,
        "L2 name too long: {}",
        converted.len()
    );
    assert!(converted.as_str().ends_with(";1"));
    // First 30 characters + ";1"
    assert_eq!(converted.as_str(), "THIS_IS_A_VERY_LONG_DIRECTORY_;1");
}

#[test]
fn test_convert_l3_short_name() {
    let orig = "readme.txt";
    let converted = convert_l3(orig, false);
    assert_eq!(converted.as_str(), "README.TXT");
}

#[test]
fn test_convert_l3_long_name_truncation() {
    // Max is 207 bytes for L3
    let long_name = "a".repeat(250);
    let converted = convert_l3(&long_name, false);
    assert!(
        converted.len() <= 207,
        "L3 name too long: {}",
        converted.len()
    );
    assert_eq!(converted.len(), 207);
}

#[test]
fn test_convert_l3_with_extension() {
    // Create a name that exceeds 207 bytes with extension
    let basename = "a".repeat(200);
    let orig = format!("{basename}.txt");
    let converted = convert_l3(&orig, false);
    assert!(
        converted.len() <= 207,
        "L3 name too long: {}",
        converted.len()
    );
}

// Edge-case tests for convert_l1

#[test]
fn test_convert_l1_empty_extension() {
    let converted = convert_l1("file.", false);
    assert_eq!(converted.as_str(), "FILE.;1");
}

#[test]
fn test_convert_l1_dot_only() {
    let converted = convert_l1(".", false);
    assert_eq!(converted.as_str(), ".;1");
}

#[test]
fn test_convert_l1_dot_dot() {
    // ".." → basename empty, dot, ext "." substituted to "_"
    let converted = convert_l1("..", false);
    assert_eq!(converted.as_str(), "._;1");
}

#[test]
fn test_convert_l1_no_dot() {
    let converted = convert_l1("README", false);
    assert_eq!(converted.as_str(), "README;1");
}

#[test]
fn test_convert_l1_no_dot_long() {
    let converted = convert_l1("LONGFILENAME", false);
    assert_eq!(converted.as_str(), "LONGFILE;1");
}

#[test]
fn test_convert_l1_exact_8_3() {
    let converted = convert_l1("12345678.abc", false);
    assert_eq!(converted.as_str(), "12345678.ABC;1");
}

#[test]
fn test_convert_l1_oversized() {
    let converted = convert_l1("longname1.longext", false);
    assert_eq!(converted.as_str(), "LONGNAME.LON;1");
}

#[test]
fn test_convert_l1_single_char() {
    let converted = convert_l1("a.b", false);
    assert_eq!(converted.as_str(), "A.B;1");
}

#[test]
fn test_convert_l1_multibyte_utf8() {
    // "café.txt" — 'é' is 2 bytes in UTF-8, basename "café" = 5 bytes
    let converted = convert_l1("café.txt", false);
    // Should not panic; multi-byte chars get substituted by CharsetD
    assert!(converted.len() <= 14, "L1 overflow: {}", converted.len());
    assert!(converted.as_str().ends_with(";1"));
}

// Edge-case tests for convert_l2

#[test]
fn test_convert_l2_empty_extension() {
    let converted = convert_l2("file.", false);
    assert_eq!(converted.as_str(), "FILE.;1");
}

#[test]
fn test_convert_l2_no_dot() {
    let converted = convert_l2("README", false);
    assert_eq!(converted.as_str(), "README;1");
}

#[test]
fn test_convert_l2_single_char() {
    let converted = convert_l2("a.b", false);
    assert_eq!(converted.as_str(), "A.B;1");
}

// Edge-case tests for convert_l3

#[test]
fn test_convert_l3_empty_extension() {
    let converted = convert_l3("file.", false);
    assert_eq!(converted.as_str(), "FILE.");
}

#[test]
fn test_convert_l3_no_dot() {
    let converted = convert_l3("README", false);
    assert_eq!(converted.as_str(), "README");
}

#[test]
fn test_convert_l3_single_char() {
    let converted = convert_l3("a.b", false);
    assert_eq!(converted.as_str(), "A.B");
}

// Edge-case tests for convert_joliet3

#[test]
fn test_convert_joliet3_short_name() {
    let converted = convert_joliet3("readme.txt");
    // UTF-16 BE: each char is 2 bytes, "readme.txt" = 10 chars = 20 bytes
    assert_eq!(converted.len(), 20);
}

#[test]
fn test_convert_joliet3_long_name_truncation() {
    // Joliet identifiers are capped at the conformant 64-character limit.
    let long_name = "a".repeat(150);
    let converted = convert_joliet3(&long_name);
    // 64 UCS-2 code units * 2 bytes = 128 bytes.
    assert_eq!(converted.len(), 128);
}

#[test]
fn test_convert_joliet3_multibyte_utf8() {
    // "café.txt" — 'é' is one UTF-16 code unit, 8 code units total
    let converted = convert_joliet3("café.txt");
    // 8 code units * 2 bytes = 16 bytes
    assert_eq!(converted.len(), 16);
}

#[test]
fn exact_identifiers() {
    assert_eq!(convert_joliet3("aé").as_bytes(), &[0, 0x61, 0, 0xE9]);
    let long = format!("{}.txt", "a".repeat(200));
    assert_eq!(convert_l3(&long, false).as_str(), format!("{}.TXT", "A".repeat(200)));
    let l1 = EntryType::Level1 { supports_lowercase: false, supports_rrip: false };
    assert_eq!(l1.convert_name("a.b").as_bytes(), b"A.B;1");
    assert_eq!(l1.convert_directory_name("my dir").as_bytes(), b"MY_DIR");
    let joliet = EntryType::from(JolietLevel::Level3);
    assert_eq!(joliet.convert_name("x").as_bytes(), &[0, 0x78]);
}
