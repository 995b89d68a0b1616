use rktop::outside::Section;
use rktop::versions::{
    board_name_from, chip_name_of, extract_version_from_binary, first_group_of, get_board_name,
    get_librkllmrt_version, get_librknnrt_version, get_npu_driver_version, get_rga_version,
    get_rk_model, version_after_mark, version_in_sections,
};

/// An ELF file for 64 bits with the given sections and the table of their names.
fn elf(sections: &[(&str, &[u8])]) -> Vec<u8> {
    let mut names: Vec<u8> = vec![0];
    let mut file: Vec<u8> = vec![0; 64];
    let mut headers: Vec<u8> = vec![0; 64];
    let mut all: Vec<(u32, u32, u64, u64)> = Vec::new();
    for (name, data) in sections {
        all.push((names.len() as u32, 1, file.len() as u64, data.len() as u64));
        names.extend_from_slice(name.as_bytes());
        names.push(0);
        file.extend_from_slice(data);
    }
    let name = names.len() as u32;
    names.extend_from_slice(b".shstrtab\0");
    all.push((name, 3, file.len() as u64, names.len() as u64));
    file.extend_from_slice(&names);
    for (name, kind, offset, size) in &all {
        headers.extend_from_slice(&name.to_le_bytes());
        headers.extend_from_slice(&kind.to_le_bytes());
        headers.extend_from_slice(&[0; 16]);
        headers.extend_from_slice(&offset.to_le_bytes());
        headers.extend_from_slice(&size.to_le_bytes());
        headers.extend_from_slice(&[0; 24]);
    }
    let start = file.len() as u64;
    file.extend_from_slice(&headers);
    file[0..16].copy_from_slice(&[0x7f, 0x45, 0x4c, 0x46, 2, 1, 1, 0, 0, 0, 0, 0, 0, 0, 0, 0]);
    file[16..18].copy_from_slice(&3u16.to_le_bytes());
    file[18..20].copy_from_slice(&183u16.to_le_bytes());
    file[20..24].copy_from_slice(&1u32.to_le_bytes());
    file[40..48].copy_from_slice(&start.to_le_bytes());
    file[52..54].copy_from_slice(&64u16.to_le_bytes());
    file[58..60].copy_from_slice(&64u16.to_le_bytes());
    file[60..62].copy_from_slice(&((all.len() + 1) as u16).to_le_bytes());
    file[62..64].copy_from_slice(&(all.len() as u16).to_le_bytes());
    file
}

fn section(name: &str, offset: u64, size: u64) -> Section {
    Section { name: Some(name.to_string()), offset, size }
}

#[test]
fn the_board_is_named_by_the_first_model_file() {
    let some = |b: &[u8]| Some(b.to_vec());
    assert_eq!(get_board_name(&vec![some(b"Radxa ROCK 5B\0\0"), some(b"other")]), "Radxa ROCK 5B");
    assert_eq!(get_board_name(&vec![None, some(b" Orange Pi \n\0")]), "Orange Pi");
    assert_eq!(get_board_name(&vec![some(b"\0\0"), some(b"  ")]), "Unknown Board");
    assert_eq!(get_board_name(&Vec::new()), "Unknown Board");
    assert_eq!(get_board_name(&vec![some(b"B\xffoard\0")]), "B\u{fffd}oard");
    let texts = vec![Some(" \0".to_string()), None, Some("NanoPi\0 ".to_string())];
    assert_eq!(board_name_from(&texts), "NanoPi\0");
}

#[test]
fn the_chip_is_part_of_the_name() {
    assert_eq!(get_rk_model("Rockchip RK3588 EVB1"), "RK3588");
    assert_eq!(get_rk_model("RK3399"), "RK3399");
    assert_eq!(get_rk_model("Rockchip RK3588S Board"), "Unknown RK");
    assert_eq!(get_rk_model("rk3588"), "Unknown RK");
    assert_eq!(get_rk_model("XRK3588 RK3566, RK3568"), "RK3566");
    assert_eq!(chip_name_of(None), "Unknown RK");
    assert_eq!(chip_name_of(Some("RK1".to_string())), "RK1");
}

#[test]
fn the_first_group_is_taken() {
    let some = |s: &str| Some(s.to_string());
    assert_eq!(first_group_of(&Some(vec![some("a"), some("b"), some("c")])), some("b"));
    assert_eq!(first_group_of(&Some(vec![some("a"), None])), None);
    assert_eq!(first_group_of(&Some(vec![some("a")])), None);
    assert_eq!(first_group_of(&None), None);
}

#[test]
fn versions_stand_after_a_colon() {
    assert_eq!(get_rga_version(Some("RGA multicore Device Driver: v1.3.1\n")), "v1.3.1");
    assert_eq!(get_npu_driver_version(Some("RKNPU driver: v0.9.8\n")), "v0.9.8");
    assert_eq!(get_npu_driver_version(Some("a: b : c")), "b");
    assert_eq!(get_rga_version(Some("no version")), "Not Detected");
    assert_eq!(get_rga_version(Some("empty:")), "");
    assert_eq!(get_rga_version(None), "Not Detected");
    assert_eq!(get_npu_driver_version(None), "Not Detected");
}

#[test]
fn versions_are_found_in_libraries() {
    let text = b"1.0.0 xx\0librknnrt version: 2.3.0 (c949ad889d@2024)\0RKLLM SDK (version: 1.1.4)\0";
    let file = elf(&[(".text", b"librknnrt version: 9.9.9"), (".rodata", text)]);
    assert_eq!(get_librknnrt_version(Some(&file)), Some("2.3.0".to_string()));
    assert_eq!(get_librkllmrt_version(Some(&file)), Some("1.1.4".to_string()));
    let file = elf(&[(".mydata", b"\xfflibrknnrt version: v1.5.2"), (".rodata", text)]);
    assert_eq!(get_librknnrt_version(Some(&file)), Some("1.5.2".to_string()));
}

#[test]
fn libraries_without_a_version_have_none() {
    let none = Some("Not Detected".to_string());
    assert_eq!(get_librknnrt_version(None), none);
    assert_eq!(get_librknnrt_version(Some(b"not a library: librknnrt version: 1.2.3")), none);
    assert_eq!(get_librknnrt_version(Some(b"\x7fELF")), none);
    assert_eq!(get_librknnrt_version(Some(&elf(&[(".rodata", b"version: 1.2.3")]))), none);
    assert_eq!(get_librknnrt_version(Some(&elf(&[(".text", b"librknnrt version: 1.2.3")]))), none);
    assert_eq!(get_librknnrt_version(Some(&elf(&[(".rodata", b"1.2.3 librknnrt version:")]))), none);
    assert_eq!(extract_version_from_binary(Some(&elf(&[])), "x"), none);
}

#[test]
fn sections_are_searched_in_order() {
    let bytes = b"....v: 1.2.3 v: 4.5.6";
    let whole = bytes.len() as u64;
    let list = vec![section(".text", 0, whole), section(".data", 12, 9), section(".rodata", 0, whole)];
    assert_eq!(version_in_sections(bytes, &list, "v:"), Some("4.5.6".to_string()));
    let list = vec![
        Section { name: None, offset: 0, size: whole },
        section(".data", 0, whole + 1),
        section(".rodata", 0, whole),
    ];
    assert_eq!(version_in_sections(bytes, &list, "v:"), Some("1.2.3".to_string()));
    assert_eq!(version_in_sections(bytes, &list, "w:"), Some("Not Detected".to_string()));
    let list = vec![section(".data", u64::MAX, 2), section(".rodata", 0, whole)];
    assert_eq!(version_in_sections(bytes, &list, "v:"), None);
    let list = vec![section(".rodata", 0, whole), section(".data", u64::MAX, 2)];
    assert_eq!(version_in_sections(bytes, &list, "v:"), Some("1.2.3".to_string()));
    let list = vec![section(".bss", u64::MAX, 2)];
    assert_eq!(version_in_sections(bytes, &list, "v:"), Some("Not Detected".to_string()));
}

#[test]
fn version_numbers_follow_the_mark() {
    assert_eq!(version_after_mark("a 1.2.3 mark 10.20.30.40", "mark"), Some("10.20.30".to_string()));
    assert_eq!(version_after_mark("1.2.3 mark", "mark"), None);
    assert_eq!(version_after_mark("mark 1.2", "mark"), None);
    assert_eq!(version_after_mark("1.2.3", "mark"), None);
}
