use driver_indexer::inf::accepts_hardware_id;
use driver_indexer::inf::InfInfo;
use driver_indexer::inf::ParseError;

fn parse(content: &str) -> InfInfo {
    InfInfo::parse_decoded(r"C:\drivers", r"C:\drivers\netcard\oem.inf", content).unwrap()
}

#[test]
fn class_line_sets_class_case_preserved() {
    let entry = parse("[Version]\r\nClass=FooBar\r\n");
    assert_eq!(entry.Class, "FooBar");
}

#[test]
fn first_class_line_wins() {
    let entry = parse("Class=First\r\nClass=Second\r\n");
    assert_eq!(entry.Class, "First");
}

#[test]
fn driver_ver_sets_date_and_version() {
    let entry = parse("[Version]\r\nDriverVer=01/02/2020,3.4.5.6\r\n");
    assert_eq!(entry.Date, "01/02/2020");
    assert_eq!(entry.Version, "3.4.5.6");
}

#[test]
fn driver_ver_expands_tokens() {
    let entry = parse("DriverVer=01/02/2020,%VER%\r\nVER=\"7.8.9.0\"\r\n");
    assert_eq!(entry.Date, "01/02/2020");
    assert_eq!(entry.Version, "7.8.9.0");
}

#[test]
fn blanks_are_stripped_before_parsing() {
    // spaces and tabs vanish from the whole text before line handling
    let entry = parse("Class = Net\r\nDriver Ver=01/02/2020, 1.2.3.4\r\n");
    assert_eq!(entry.Class, "Net");
    assert_eq!(entry.Version, "1.2.3.4");
}

#[test]
fn comment_lines_and_tails_are_dropped()
{
    let entry = parse("; Class=Wrong\r\nClass=Right;trailing words\r\n");
    assert_eq!(entry.Class, "Right");
}

#[test]
fn architecture_tags_collect_without_duplicates() {
    let entry = parse("[Std.NTamd64]\r\nx=y\r\n[Std.ntAMD64.10.0]\r\n[Other.NTx86]\r\n");
    assert_eq!(entry.Arch, vec!["NTamd64".to_string(), "NTx86".to_string()]);
}

#[test]
fn hardware_ids_accepted_and_rejected() {
    let text = "[Models]\r\nDevice1=Install1,USB\\VID_1234&PID_5678\r\nDevice2=Install2,*PNP0501\r\nBad1=Install3,\\\r\nBad2=Install4,ID/WITH/SLASH\r\n";
    let entry = parse(text);
    assert_eq!(
        entry.DriverList,
        vec!["USB\\VID_1234&PID_5678".to_string(), "*PNP0501".to_string()]
    );
}

#[test]
fn hardware_id_predicate() {
    let ok1: Vec<char> = "USB\\VID_1234&PID_5678".chars().collect();
    let ok2: Vec<char> = "*PNP0501".chars().collect();
    let bare: Vec<char> = "\\".chars().collect();
    let slash: Vec<char> = "USB/VID".chars().collect();
    let space: Vec<char> = "USB VID".chars().collect();
    let plain: Vec<char> = "NoMarkers".chars().collect();
    assert!(accepts_hardware_id(&ok1));
    assert!(accepts_hardware_id(&ok2));
    assert!(!accepts_hardware_id(&bare));
    assert!(!accepts_hardware_id(&slash));
    assert!(!accepts_hardware_id(&space));
    assert!(!accepts_hardware_id(&plain));
}

#[test]
fn hardware_ids_uppercased_and_deduplicated() {
    let text = "A=x,usb\\vid_abcd\r\nB=y,USB\\VID_ABCD\r\n";
    let entry = parse(text);
    assert_eq!(entry.DriverList, vec!["USB\\VID_ABCD".to_string()]);
}

#[test]
fn relative_path_and_file_name() {
    let entry = parse("Class=Net\r\n");
    assert_eq!(entry.Path, "netcard");
    assert_eq!(entry.Inf, "oem.inf");
}

#[test]
fn path_not_under_base_is_rejected() {
    let r = InfInfo::parse_decoded(r"D:\other", r"C:\drivers\netcard\oem.inf", "Class=Net\r\n");
    assert_eq!(r.unwrap_err(), ParseError::PathNotUnderBase);
}

#[test]
fn raw_bytes_are_decoded_before_parsing() {
    let bytes: &[u8] = b"Class=Net\r\nDriverVer=01/02/2020,1.0.0.0\r\nA=b,*PNP0F13\r\n";
    let entry =
        InfInfo::parsingInfFile(r"C:\drivers", r"C:\drivers\kbd\kbd.inf", bytes).unwrap();
    assert_eq!(entry.Class, "Net");
    assert_eq!(entry.Version, "1.0.0.0");
    assert_eq!(entry.DriverList, vec!["*PNP0F13".to_string()]);
}

#[test]
fn first_driver_ver_line_wins() {
    let entry = parse("DriverVer=01/01/2001,1.0\r\nDriverVer=02/02/2002,2.0\r\n");
    assert_eq!(entry.Date, "01/01/2001");
    assert_eq!(entry.Version, "1.0");
}

#[test]
fn token_lookup_needs_carriage_return_endings() {
    // assignments are looked up as `VAR=` up to a CR-LF ending, so with
    // bare LF endings the placeholder stays unexpanded
    let entry = parse("DriverVer=01/02/2020,%VER%\nVER=\"7.8.9.0\"\n");
    assert_eq!(entry.Version, "%VER%");
}

#[test]
fn escape_byte_input_is_rejected_not_fatal() {
    // charset detection has no verdict for an unresolved escape sequence,
    // so bytes holding 0x1B fail per file instead of ending the batch
    let r = InfInfo::parsingInfFile(r"C:\drivers", r"C:\drivers\a\a.inf", b"\x1bx");
    assert_eq!(r.unwrap_err(), ParseError::Undecodable);
    let r2 = InfInfo::parsingInfFile(
        r"C:\drivers",
        r"C:\drivers\a\a.inf",
        b"Class=Net\r\n\x1b$B",
    );
    assert_eq!(r2.unwrap_err(), ParseError::Undecodable);
}
