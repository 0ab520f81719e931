use driver_indexer::text::String_utils;
use driver_indexer::util::classify_target_path;
use driver_indexer::util::driver_matches_filter;
use driver_indexer::util::format_packed_version;
use driver_indexer::util::isDriverCD;
use driver_indexer::util::DriverPackageInfo;
use driver_indexer::util::extract_vars;
use driver_indexer::util::getArchCode;
use driver_indexer::util::getTmpName;
use driver_indexer::util::isArchive;
use driver_indexer::util::machine_to_arch;
use driver_indexer::util::utf16_array_to_string;

// 正则表达式测试
#[test]
#[allow(non_snake_case)]
fn reTest() {}

// 系统位宽判断测试
#[test]
#[allow(non_snake_case)]
fn getSystemBitWidthTest() {
    match std::mem::size_of::<&char>() {
        4 => println!("x32"),
        8 => println!("x64"),
        _ => {}
    }
}

#[test]
#[allow(non_snake_case)]
fn writeRegTest() {}

#[test]
fn archive_extensions() {
    assert!(isArchive("driverpack.7z"));
    assert!(isArchive(r"C:\packs\net.Zip"));
    assert!(isArchive("a/b/c.CAB"));
    assert!(!isArchive("readme.txt"));
    assert!(!isArchive(r"C:\packs\driver.inf"));
}

#[test]
fn tmp_name_shape() {
    let name = getTmpName(".tmp", ".log", 6);
    assert_eq!(name.chars().count(), 4 + 6 + 4);
    assert!(name.starts_with(".tmp"));
    assert!(name.ends_with(".log"));
    for c in name[4..name.len() - 4].chars() {
        assert!(c.is_ascii_alphanumeric());
    }
}

#[test]
fn utf16_buffer_stops_at_nul() {
    let buf: Vec<u16> = vec![72, 105, 0, 88, 89];
    assert_eq!(utf16_array_to_string(&buf), "Hi");
    let empty: Vec<u16> = vec![0, 65];
    assert_eq!(utf16_array_to_string(&empty), "");
    let no_nul: Vec<u16> = vec![79, 75];
    assert_eq!(utf16_array_to_string(&no_nul), "OK");
}

#[test]
fn extract_vars_takes_odd_segments() {
    assert_eq!(extract_vars("%abc%def%gh_1%"), vec!["abc".to_string(), "gh_1".to_string()]);
    assert_eq!(extract_vars("no vars here"), Vec::<String>::new());
    // an illegal name between percent signs does not count
    assert_eq!(extract_vars("%a b%"), Vec::<String>::new());
}

#[test]
fn machine_codes_map_to_store_arch() {
    assert_eq!(machine_to_arch(0x014c), Some(0));
    assert_eq!(machine_to_arch(0x8664), Some(9));
    assert_eq!(machine_to_arch(0xAA64), Some(12));
    assert_eq!(machine_to_arch(0x1234), None);
}

#[test]
fn arch_code_from_kernel_image() {
    // a minimal portable-executable image: DOS header, PE signature, COFF
    // header naming the x64 machine
    let mut image = vec![0u8; 0x40];
    image[0] = b'M';
    image[1] = b'Z';
    image[0x3C] = 0x40;
    image.extend_from_slice(b"PE\0\0");
    let mut coff = [0u8; 20];
    coff[0] = 0x64;
    coff[1] = 0x86;
    image.extend_from_slice(&coff);
    match getArchCode(&image) {
        Ok(machine) => assert_eq!(machine, 0x8664),
        Err(_) => panic!("kernel image did not parse"),
    }
    assert!(getArchCode(b"not a pe file").is_err());
}

#[test]
fn string_cut_helpers() {
    let s = String::from("alpha=beta;gamma");
    assert_eq!(s.get_string_left("="), Some(String::from("alpha")));
    assert_eq!(s.get_string_right("="), Some(String::from("beta;gamma")));
    assert_eq!(s.get_string_center("=", ";"), Some(String::from("beta")));
    assert_eq!(s.get_string_left("?"), None);
    assert_eq!(s.get_string_center("gamma", ";"), None);
}

#[test]
fn driver_filter_is_case_insensitive() {
    assert!(driver_matches_filter("oem1.inf", "Net", &None, &None));
    assert!(driver_matches_filter("OEM1.INF", "Net", &Some(String::from("oem1.inf")), &None));
    assert!(driver_matches_filter("oem1.inf", "NET", &None, &Some(String::from("net"))));
    assert!(!driver_matches_filter("oem2.inf", "Net", &Some(String::from("oem1.inf")), &None));
    assert!(!driver_matches_filter("oem1.inf", "Media", &None, &Some(String::from("net"))));
}

#[test]
fn packed_version_unpacks_dotted() {
    let v: u64 = (3u64 << 48) | (4u64 << 32) | (5u64 << 16) | 6u64;
    assert_eq!(format_packed_version(v), "3.4.5.6");
    assert_eq!(format_packed_version(0), "0.0.0.0");
    assert_eq!(format_packed_version(u64::MAX), "65535.65535.65535.65535");
}

#[test]
fn package_info_decodes_utf16_buffers() {
    let mut locale = [0u16; 8];
    locale[0] = b'e' as u16;
    locale[1] = b'n' as u16;
    let mut inf = [0u16; 8];
    inf[0] = b'a' as u16;
    inf[1] = b'.' as u16;
    inf[2] = b'i' as u16;
    let info = DriverPackageInfo::from_raw_parts(9, &locale, &inf, 1);
    assert_eq!(info.processor_architecture, 9);
    assert_eq!(info.locale_name, "en");
    assert_eq!(info.published_inf_name, "a.i");
    assert_eq!(info.flags, 1);
}

#[test]
fn driver_cd_profile() {
    assert!(isDriverCD(5, Some(7), Some(16 * 1024 * 1024), true));
    assert!(isDriverCD(5, Some(7), None, true));
    assert!(!isDriverCD(3, Some(7), Some(1024), true));
    assert!(!isDriverCD(5, Some(3), Some(1024), true));
    assert!(!isDriverCD(5, Some(7), Some(64 * 1024 * 1024), true));
    assert!(!isDriverCD(5, Some(7), Some(1024), false));
}

#[test]
fn classified_driver_target() {
    assert_eq!(
        classify_target_path(r"D:\out", "Network adapters", " Contoso ", "netcard"),
        "D:\\out\\Network adapters\\Contoso\\netcard"
    );
}
