use ue5_dumper::discovery::{
    choose_module, choose_process, cmdline_matches, find_base, parse_pid, wide_to_string,
};
use ue5_dumper::search::parse_offsets;
use ue5_dumper::text::{
    bytes_contain, find_byte, insert_distinct, parse_hex, parse_i32, parse_number, push_decimal,
    push_signed, str_contains, str_equal, str_less, strip_prefix, strip_suffix, trim_nuls,
};

#[test]
fn text_comparison() {
    assert!(str_equal("None", "None"));
    assert!(!str_equal("None", "none"));
    assert!(!str_equal("None", "None_0"));
    assert!(str_contains("PlayerController", "Control"));
    assert!(str_contains("PlayerController", ""));
    assert!(!str_contains("", "x"));
    assert!(!str_contains("PlayerController", "control"));
    assert!(str_contains("Käfig", "äf"));
    assert!(bytes_contain(b"a\0bc", b"\0b"));
    assert!(str_less("Actor", "Pawn"));
    assert!(str_less("Actor", "ActorComponent"));
    assert!(!str_less("Actor", "Actor"));
    assert!(!str_less("b", "a"));
}

#[test]
fn decimal_numbers_are_appended() {
    let mut s = String::from("x");
    push_decimal(&mut s, 0);
    push_decimal(&mut s, 4096);
    assert_eq!(s, "x04096");
    push_decimal(&mut s, u64::MAX);
    assert_eq!(s, "x0409618446744073709551615");
    let mut t = String::new();
    push_signed(&mut t, -1);
    push_signed(&mut t, 7);
    push_signed(&mut t, i32::MIN);
    assert_eq!(t, "-17-2147483648");
}

#[test]
fn ends_of_texts_are_taken_off() {
    assert_eq!(trim_nuls("abc\0\0"), "abc");
    assert_eq!(trim_nuls("a\0b\0"), "a\0b");
    assert_eq!(trim_nuls("\0\0"), "");
    assert_eq!(trim_nuls(""), "");
    assert_eq!(strip_suffix("BP_Door_C", "_C"), "BP_Door");
    assert_eq!(strip_suffix("Door", "_C"), "Door");
    assert_eq!(strip_suffix("C", "_C"), "C");
    assert_eq!(strip_prefix("BP_Door", "BP_"), "Door");
    assert_eq!(strip_prefix("Door", "BP_"), "Door");
}

#[test]
fn numbers_are_parsed() {
    assert_eq!(parse_hex(b"7ff6A0"), Some(0x7FF6A0));
    assert_eq!(parse_hex(b"+10"), Some(16));
    assert_eq!(parse_hex(b""), None);
    assert_eq!(parse_hex(b"+"), None);
    assert_eq!(parse_hex(b"-1"), None);
    assert_eq!(parse_hex(b"12g"), None);
    assert_eq!(parse_hex(b"ffffffffffffffff"), Some(u64::MAX));
    assert_eq!(parse_hex(b"10000000000000000"), None);
    assert_eq!(parse_hex(b"0000000000000000001"), Some(1));
    assert_eq!(parse_i32(b"-2147483648"), Some(i32::MIN));
    assert_eq!(parse_i32(b"2147483648"), None);
    assert_eq!(parse_i32(b"-"), None);
    assert_eq!(parse_number(b"1a", 10, 100), None);
    assert_eq!(parse_number(b"101", 10, 100), None);
    assert_eq!(parse_number(b"100", 10, 100), Some(100));
    assert_eq!(find_byte(b"a-b-c", 2, b'-'), 3);
    assert_eq!(find_byte(b"abc", 0, b'-'), 3);
}

#[test]
fn standard_parsers_agree() {
    for s in ["0", "+7", "-7", "", "+", "-", "12x", "99999999999", "2147483647", "00012", "+-1"] {
        assert_eq!(parse_i32(s.as_bytes()), s.parse::<i32>().ok(), "{s}");
        assert_eq!(parse_hex(s.as_bytes()), u64::from_str_radix(s, 16).ok(), "{s}");
    }
}

#[test]
fn distinct_names_are_kept_sorted() {
    let mut list: Vec<String> = Vec::new();
    for name in ["Package", "Class", "Package", "Enum", "Class", "Actor"] {
        insert_distinct(&mut list, name.to_string());
    }
    assert_eq!(list, vec!["Actor", "Class", "Enum", "Package"]);
}

#[test]
fn process_ids_and_command_lines() {
    assert_eq!(parse_pid("1234"), Some(1234));
    assert_eq!(parse_pid("self"), None);
    assert_eq!(parse_pid("99999999999"), None);
    let data = b"wine\0Z:\\games\\MyGame-Win64-Shipping.exe\0";
    assert!(cmdline_matches(data, "MyGame-Win64-Shipping.exe"));
    assert!(!cmdline_matches(data, "mygame"));
    assert!(cmdline_matches(b"init", ""));
    assert!(cmdline_matches(b"", ""));
    assert!(!cmdline_matches(b"", "init"));
}

#[test]
fn the_first_mapping_of_a_module_is_its_base() {
    let maps = "00400000-00401000 r-xp 00000000 08:01 1 /usr/bin/wine\n\
                140000000-140001000 r--p 00000000 08:01 2 /games/MyGame.exe\r\n\
                140001000-145000000 r-xp 00001000 08:01 2 /games/MyGame.exe\n";
    assert_eq!(find_base(maps, "MyGame.exe"), Some(0x1_4000_0000));
    assert_eq!(find_base(maps, "wine"), Some(0x40_0000));
    assert_eq!(find_base(maps, "Other.exe"), None);
    assert_eq!(find_base("no address MyGame.exe", "MyGame.exe"), None);
    assert_eq!(find_base("xyz-1 MyGame.exe\n10-20 MyGame.exe", "MyGame.exe"), None);
    assert_eq!(find_base("10-20 a\n30-40 b", "b"), Some(0x30));
    assert_eq!(find_base("", "b"), None);
    // The carriage return belongs to the end of the line.
    assert_eq!(find_base("10-20 a\r\n", "a\r"), None);
    assert_eq!(find_base("10-20 a\r", "a\r"), Some(0x10));
}

#[test]
fn wide_names_end_at_the_first_nul() {
    let wide: Vec<u16> = "Game.exe\0junk".encode_utf16().collect();
    assert_eq!(wide_to_string(&wide), "Game.exe");
    let open: Vec<u16> = "Game".encode_utf16().collect();
    assert_eq!(wide_to_string(&open), "Game");
    assert_eq!(wide_to_string(&[0x41, 0xD800, 0x42]), "A\u{FFFD}B");
    assert_eq!(wide_to_string(&[0xD83D, 0xDE00]), "\u{1F600}");
}

#[test]
fn processes_and_modules_match_whatever_their_case() {
    let processes = vec![
        ("explorer.exe".to_string(), 4u32),
        ("MyGame-Win64-Shipping.exe".to_string(), 77),
        ("mygame-launcher.exe".to_string(), 78),
    ];
    assert_eq!(choose_process(&processes, "MYGAME"), Some(77));
    assert_eq!(choose_process(&processes, "other"), None);
    let modules = vec![("Game.exe".to_string(), 0x1000u64), ("ntdll.dll".to_string(), 0x2000)];
    assert_eq!(choose_module(&modules, "NTDLL"), Some(0x2000));
    assert_eq!(choose_module(&modules, "missing"), Some(0x1000));
    assert_eq!(choose_module(&Vec::new(), "missing"), None);
}

#[test]
fn offsets_are_parsed_from_a_list() {
    assert_eq!(parse_offsets("0x4e0,500,0x578,0x580"), vec![0x4e0, 0x500, 0x578, 0x580]);
    assert_eq!(parse_offsets(""), Vec::<u64>::new());
    assert_eq!(parse_offsets("zz,,10,"), vec![0x10]);
    assert_eq!(parse_offsets("0x0x20,0X30"), vec![0x20]);
}
