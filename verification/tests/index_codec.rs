use driver_indexer::index::build_index;
use driver_indexer::inf::InfInfo;
use driver_indexer::inf::ParseError;

fn sample_entry() -> InfInfo {
    InfInfo {
        Path: String::from("netcard\\x64"),
        Inf: String::from("oem.inf"),
        Class: String::from("Net"),
        Arch: vec![String::from("NTamd64")],
        Date: String::from("01/02/2020"),
        Version: String::from("3.4.5.6"),
        DriverList: vec![String::from("USB\\VID_1234&PID_5678"), String::from("*PNP0501")],
    }
}

#[test]
fn round_trip_keeps_entries() {
    let entries = vec![
        sample_entry(),
        InfInfo {
            Path: String::from("audio"),
            Inf: String::from("hd.inf"),
            Class: String::from("MEDIA"),
            Arch: vec![String::from("NTx86"), String::from("NTamd64")],
            Date: String::from("12/31/2019"),
            Version: String::from("10.0"),
            DriverList: vec![String::from("HDAUDIO\\FUNC_01")],
        },
    ];
    let text = InfInfo::saveIndexFromJson(&entries);
    let loaded = InfInfo::parsingIndex(&text).unwrap();
    assert_eq!(loaded, entries);
}

#[test]
fn round_trip_survives_quotes_and_backslashes() {
    let mut e = sample_entry();
    e.Class = String::from("Say \"hi\" \\ there");
    e.DriverList = vec![String::from("ROOT\\A\\B")];
    let entries = vec![e];
    let text = InfInfo::saveIndexFromJson(&entries);
    let loaded = InfInfo::parsingIndex(&text).unwrap();
    assert_eq!(loaded, entries);
}

#[test]
fn round_trip_empty_index() {
    let entries: Vec<InfInfo> = Vec::new();
    let text = InfInfo::saveIndexFromJson(&entries);
    assert_eq!(text, "[]");
    assert_eq!(InfInfo::parsingIndex(&text).unwrap(), entries);
}

#[test]
fn corrupt_index_is_rejected() {
    assert!(InfInfo::parsingIndex("").is_err());
    assert!(InfInfo::parsingIndex("not an index").is_err());
    assert!(InfInfo::parsingIndex("[{\"Path\":\"a\"").is_err());
    assert!(InfInfo::parsingIndex("[{\"Path\":3}]").is_err());
    assert!(InfInfo::parsingIndex("[]trailing").is_err());
}

#[test]
fn missing_and_unknown_fields_tolerated() {
    let text = "[{\"Unknown\":\"x\",\"Class\":\"Net\",\"Extra\":[\"y\"]}]";
    let loaded = InfInfo::parsingIndex(text).unwrap();
    assert_eq!(loaded.len(), 1);
    assert_eq!(loaded[0].Class, "Net");
    assert_eq!(loaded[0].Path, "");
    assert!(loaded[0].Arch.is_empty());
    assert!(loaded[0].DriverList.is_empty());
}

#[test]
fn saved_index_is_plain_json() {
    let entries = vec![sample_entry()];
    let text = InfInfo::saveIndexFromJson(&entries);
    let value: serde_json::Value = serde_json::from_str(&text).unwrap();
    let arr = value.as_array().unwrap();
    assert_eq!(arr.len(), 1);
    let obj = arr[0].as_object().unwrap();
    assert_eq!(obj.get("Path").unwrap().as_str().unwrap(), "netcard\\x64");
    assert_eq!(obj.get("Class").unwrap().as_str().unwrap(), "Net");
    let ids = obj.get("DriverList").unwrap().as_array().unwrap();
    assert_eq!(ids.len(), 2);
    assert_eq!(ids[0].as_str().unwrap(), "USB\\VID_1234&PID_5678");
}

#[test]
fn build_index_counts_and_keeps() {
    let good = sample_entry();
    let mut blank = sample_entry();
    blank.DriverList = Vec::new();
    let results: Vec<Result<InfInfo, ParseError>> = vec![
        Ok(good.clone()),
        Ok(blank),
        Err(ParseError::Undecodable),
        Err(ParseError::PathNotUnderBase),
    ];
    let (kept, counts) = build_index(results);
    assert_eq!(kept.len(), 1);
    assert_eq!(kept[0], good);
    assert_eq!(counts.success, 1);
    assert_eq!(counts.blank, 1);
    assert_eq!(counts.error, 2);
}

#[test]
fn round_trip_survives_control_characters() {
    let mut e = sample_entry();
    e.Class = String::from("line\r\nbreak\ttab");
    e.Date = String::from("bell\u{7}form\u{c}feed\u{8}");
    let entries = vec![e];
    let text = InfInfo::saveIndexFromJson(&entries);
    let loaded = InfInfo::parsingIndex(&text).unwrap();
    assert_eq!(loaded, entries);
}

#[test]
fn reader_accepts_short_and_hex_escapes() {
    let text = "[{\"Class\":\"a\\r\\nb\",\"Path\":\"c\\u000dd\",\"Inf\":\"e\\u0007f\",\"Date\":\"g\\/h\"}]";
    let loaded = InfInfo::parsingIndex(text).unwrap();
    assert_eq!(loaded[0].Class, "a\r\nb");
    assert_eq!(loaded[0].Path, "c\rd");
    assert_eq!(loaded[0].Inf, "e\u{7}f");
    assert_eq!(loaded[0].Date, "g/h");
}

#[test]
fn index_written_by_serde_reads_back() {
    // an index file as a serde-based build writes it, with a control
    // character escaped in a field
    let mut obj = serde_json::Map::new();
    obj.insert(
        String::from("Path"),
        serde_json::Value::String(String::from("net\r\ncard")),
    );
    obj.insert(String::from("Inf"), serde_json::Value::String(String::from("oem.inf")));
    obj.insert(String::from("Class"), serde_json::Value::String(String::from("Net")));
    obj.insert(
        String::from("Arch"),
        serde_json::Value::Array(vec![serde_json::Value::String(String::from("NTamd64"))]),
    );
    obj.insert(String::from("Date"), serde_json::Value::String(String::from("01/02/2020")));
    obj.insert(String::from("Version"), serde_json::Value::String(String::from("1.0")));
    obj.insert(
        String::from("DriverList"),
        serde_json::Value::Array(vec![serde_json::Value::String(String::from(
            "USB\\VID_1234",
        ))]),
    );
    let text = serde_json::to_string(&serde_json::Value::Array(vec![serde_json::Value::Object(
        obj,
    )]))
    .unwrap();
    let loaded = InfInfo::parsingIndex(&text).unwrap();
    assert_eq!(loaded.len(), 1);
    assert_eq!(loaded[0].Path, "net\r\ncard");
    assert_eq!(loaded[0].Class, "Net");
    assert_eq!(loaded[0].DriverList, vec![String::from("USB\\VID_1234")]);
}

#[test]
fn writer_escapes_as_serde_does() {
    let class = String::from("a\"b\\c\r\n\t\u{1f}");
    let mut e = sample_entry();
    e.Class = class.clone();
    let ours = InfInfo::saveIndexFromJson(&vec![e]);
    // the serialized form of that string is byte for byte what serde writes
    let theirs = serde_json::to_string(&serde_json::Value::String(class)).unwrap();
    assert!(ours.contains(&theirs));
}
