use std::borrow::Borrow;
use std::collections::HashSet;

use libfdt_rs::error::Error;
use libfdt_rs::fdt::{Fdt, Offset, Phandle};
use libfdt_rs::node::FdtNodeRef;
use libfdt_rs::property::{PhandleLink, PropertyCellParser, PropertyReader};

/// Writes a device tree blob token by token.
struct Builder {
    structs: Vec<u8>,
    strings: Vec<u8>,
}

impl Builder {
    fn new() -> Builder {
        Builder { structs: Vec::new(), strings: Vec::new() }
    }

    fn word(&mut self, v: u32) {
        self.structs.extend_from_slice(&v.to_be_bytes());
    }

    fn pad(&mut self) {
        while self.structs.len() % 4 != 0 {
            self.structs.push(0);
        }
    }

    fn begin(&mut self, name: &[u8]) -> &mut Builder {
        self.word(1);
        self.structs.extend_from_slice(name);
        self.structs.push(0);
        self.pad();
        self
    }

    fn end(&mut self) -> &mut Builder {
        self.word(2);
        self
    }

    fn nop(&mut self) -> &mut Builder {
        self.word(4);
        self
    }

    fn string_offset(&mut self, name: &str) -> u32 {
        let off = self.strings.len() as u32;
        self.strings.extend_from_slice(name.as_bytes());
        self.strings.push(0);
        off
    }

    fn prop(&mut self, name: &str, data: &[u8]) -> &mut Builder {
        let off = self.string_offset(name);
        self.word(3);
        self.word(data.len() as u32);
        self.word(off);
        self.structs.extend_from_slice(data);
        self.pad();
        self
    }

    fn cells(&mut self, name: &str, cells: &[u32]) -> &mut Builder {
        let mut data = Vec::new();
        for c in cells {
            data.extend_from_slice(&c.to_be_bytes());
        }
        self.prop(name, &data)
    }

    fn finish(&mut self) -> Vec<u8> {
        self.word(9);
        let header = 40u32;
        let rsv = header;
        let struct_off = rsv + 16;
        let strings_off = struct_off + self.structs.len() as u32;
        let total = strings_off + self.strings.len() as u32;
        let mut b = Vec::new();
        for v in [
            0xd00dfeedu32,
            total,
            struct_off,
            strings_off,
            rsv,
            17,
            16,
            0,
            self.strings.len() as u32,
            self.structs.len() as u32,
        ] {
            b.extend_from_slice(&v.to_be_bytes());
        }
        b.extend_from_slice(&[0u8; 16]);
        b.extend_from_slice(&self.structs);
        b.extend_from_slice(&self.strings);
        b
    }
}

/// A board with a clock, a regulator, a GPIO controller, a consumer device
/// and a symbol table.
fn board() -> Vec<u8> {
    let mut b = Builder::new();
    b.begin(b"");
    b.prop("compatible", b"acme,board\0acme,soc\0");
    b.cells("#address-cells", &[1]);
    b.begin(b"clock@5").cells("phandle", &[5]).cells("#clock-cells", &[0]).end();
    b.begin(b"regulator").cells("phandle", &[7]).end();
    b.begin(b"gpio").cells("linux,phandle", &[9]).cells("#gpio-cells", &[2]).end();
    b.begin(b"dev");
    b.nop();
    b.cells("clocks", &[5, 0]);
    b.cells("foo-supply", &[7]);
    b.cells("bar-supply", &[9, 5]);
    b.cells("reset-gpio", &[9, 1, 2, 7]);
    b.cells("power-domains", &[7, 5]);
    b.cells("dmas", &[0, 5, 0xffffffff, 7]);
    b.cells("resets", &[42, 5]);
    b.cells("reg", &[5, 7]);
    b.prop("label", b"uart\0");
    b.prop("model", b"abc");
    b.prop("bad-str", &[0xff, 0]);
    b.begin(b"child").begin(b"grandchild").end().end();
    b.end();
    b.begin(b"shortcells").cells("phandle", &[11]).prop("#pwm-cells", &[0, 1]).end();
    b.begin(b"pwmuser").cells("pwms", &[11, 3]).end();
    b.begin(b"__symbols__");
    b.prop("clk", b"/clock@5\0");
    b.prop("dev", b"/dev\0");
    b.end();
    b.end();
    b.finish()
}

fn load(bytes: Vec<u8>) -> Fdt {
    Fdt::new(bytes.into_boxed_slice()).unwrap()
}

fn names(nodes: &[libfdt_rs::node::FdtNode]) -> Vec<String> {
    nodes.iter().map(|n| n.name().to_string()).collect()
}

#[test]
fn bad_magic_is_rejected() {
    let mut bytes = board();
    bytes[0] = 0xde;
    assert!(matches!(Fdt::new(bytes.into_boxed_slice()), Err(Error::BadMagic)));
}

#[test]
fn short_buffer_is_truncated() {
    assert!(matches!(Fdt::new(vec![0xd0u8, 0x0d].into_boxed_slice()), Err(Error::Truncated)));
    let bytes = board();
    let cut = bytes[..bytes.len() - 4].to_vec();
    assert!(matches!(Fdt::new(cut.into_boxed_slice()), Err(Error::Truncated)));
    let header_only = bytes[..20].to_vec();
    assert!(matches!(Fdt::new(header_only.into_boxed_slice()), Err(Error::Truncated)));
}

#[test]
fn unsupported_version_is_rejected() {
    let mut bytes = board();
    bytes[20..24].copy_from_slice(&15u32.to_be_bytes());
    assert!(matches!(Fdt::new(bytes.into_boxed_slice()), Err(Error::BadVersion)));
    let mut newer = board();
    newer[24..28].copy_from_slice(&18u32.to_be_bytes());
    assert!(matches!(Fdt::new(newer.into_boxed_slice()), Err(Error::BadVersion)));
}

#[test]
fn version_below_last_compatible_is_rejected() {
    let mut bytes = board();
    bytes[20..24].copy_from_slice(&16u32.to_be_bytes());
    bytes[24..28].copy_from_slice(&17u32.to_be_bytes());
    assert!(matches!(Fdt::new(bytes.into_boxed_slice()), Err(Error::BadVersion)));
}

#[test]
fn version_sixteen_is_read() {
    let mut bytes = board();
    bytes[20..24].copy_from_slice(&16u32.to_be_bytes());
    let fdt = load(bytes);
    assert_eq!(fdt.get_node("/dev/child").unwrap().name(), "child");
}

#[test]
fn valid_blob_is_accepted() {
    let fdt = load(board());
    let root = fdt.get_node("/").unwrap();
    assert_eq!(root.offset(), Offset(0));
    assert_eq!(root.name(), "");
    assert_eq!(fdt.bytes().len(), board().len());
}

#[test]
fn path_offset_without_leading_separator_is_bad_path() {
    let fdt = load(board());
    assert!(matches!(fdt.path_offset("root"), Err(Error::BadPath)));
    assert!(matches!(fdt.path_offset(""), Err(Error::BadPath)));
}

#[test]
fn path_offset_of_missing_node_is_not_found() {
    let fdt = load(board());
    assert!(matches!(fdt.path_offset("/missing/node"), Err(Error::NotFound)));
    assert!(matches!(fdt.path_offset("/dev/missing"), Err(Error::NotFound)));
}

#[test]
fn path_offset_finds_nested_nodes() {
    let fdt = load(board());
    assert_eq!(fdt.path_offset("/").unwrap(), Offset(0));
    let gc = fdt.path_offset("/dev/child/grandchild").unwrap();
    let node = fdt.get_node_by_offset(gc).unwrap();
    assert_eq!(node.name(), "grandchild");
    assert_eq!(fdt.path_offset("//dev//child/").unwrap(), fdt.path_offset("/dev/child").unwrap());
}

#[test]
fn path_component_without_unit_address_matches_one() {
    let fdt = load(board());
    let clock = fdt.get_node("/clock").unwrap();
    assert_eq!(clock.name(), "clock@5");
    assert_eq!(fdt.get_node("/clock@5").unwrap().offset(), clock.offset());
    assert!(matches!(fdt.get_node("/clock@6"), Err(Error::NotFound)));
    assert!(matches!(fdt.get_node("/cloc"), Err(Error::NotFound)));
}

#[test]
fn node_path_round_trips_through_path_offset() {
    let fdt = load(board());
    for path in ["/", "/clock@5", "/dev", "/dev/child", "/dev/child/grandchild", "/__symbols__"] {
        let node = fdt.get_node(path).unwrap();
        let rebuilt = node.path().unwrap();
        assert_eq!(rebuilt, path);
        assert_eq!(fdt.path_offset(&rebuilt).unwrap(), node.offset());
    }
}

#[test]
fn node_path_too_long_is_no_space() {
    let long = vec![b'n'; 2100];
    let mut b = Builder::new();
    b.begin(b"").begin(&long).end().end();
    let fdt = load(b.finish());
    let root = fdt.get_node("/").unwrap();
    let child = fdt.first_subnode(&root).unwrap().unwrap();
    assert!(matches!(child.path(), Err(Error::NoSpace)));
}

#[test]
fn subnode_walk_visits_each_child_once_in_order() {
    let fdt = load(board());
    let root = fdt.get_node("/").unwrap();
    let mut seen = Vec::new();
    let mut cur = fdt.first_subnode(&root).unwrap();
    while let Some(n) = cur {
        cur = fdt.next_subnode(&n).unwrap();
        seen.push(n);
    }
    assert_eq!(
        names(&seen),
        vec!["clock@5", "regulator", "gpio", "dev", "shortcells", "pwmuser", "__symbols__"]
    );
    for w in seen.windows(2) {
        assert!(w[0].offset() < w[1].offset());
    }
    let last = seen.last().unwrap();
    assert!(matches!(fdt.next_subnode_offset(last.offset()), Err(Error::NotFound)));
    let leaf = fdt.get_node("/regulator").unwrap();
    assert!(fdt.first_subnode(&leaf).unwrap().is_none());
    assert!(matches!(fdt.first_subnode_offset(leaf.offset()), Err(Error::NotFound)));
}

#[test]
fn node_iterator_matches_subnode_walk() {
    let fdt = load(board());
    let dev = fdt.get_node("/dev").unwrap();
    let mut it = dev.subnodes_iter().unwrap();
    let first = it.next().unwrap().unwrap();
    assert_eq!(first.name(), "child");
    assert!(it.next().unwrap().is_none());
    assert!(it.next().unwrap().is_none());
}

#[test]
fn property_iterator_lists_properties_in_order() {
    let fdt = load(board());
    let clock = fdt.get_node("/clock@5").unwrap();
    let mut it = clock.properties_iter().unwrap();
    let mut got = Vec::new();
    while let Some(p) = it.next().unwrap() {
        got.push(p.name().to_string());
    }
    assert_eq!(got, vec!["phandle", "#clock-cells"]);
    let grandchild = fdt.get_node("/dev/child/grandchild").unwrap();
    assert!(fdt.first_property(&grandchild).unwrap().is_none());
}

#[test]
fn property_offsets_skip_padding() {
    let fdt = load(board());
    let dev = fdt.get_node("/dev").unwrap();
    let first = fdt.first_property(&dev).unwrap().unwrap();
    assert_eq!(first.name(), "clocks");
    let second = fdt.next_property(&first).unwrap().unwrap();
    assert_eq!(second.name(), "foo-supply");
    assert!(matches!(fdt.first_property_offset(second.offset.unwrap()), Err(Error::BadOffset)));
    assert!(matches!(fdt.next_property_offset(dev.offset()), Err(Error::BadOffset)));
}

#[test]
fn misaligned_or_foreign_offsets_are_bad_offsets() {
    let fdt = load(board());
    assert!(matches!(fdt.get_node_by_offset(Offset(2)), Err(Error::BadOffset)));
    assert!(matches!(fdt.get_node_by_offset(Offset(1 << 20)), Err(Error::BadOffset)));
    let dev = fdt.get_node("/dev").unwrap();
    let prop = fdt.first_property(&dev).unwrap().unwrap();
    assert!(matches!(fdt.get_node_by_offset(prop.offset.unwrap()), Err(Error::BadOffset)));
    assert!(matches!(fdt.get_property_by_offset(dev.offset()), Err(Error::BadOffset)));
}

#[test]
fn property_lookup_by_name() {
    let fdt = load(board());
    let dev = fdt.get_node("/dev").unwrap();
    let reg = dev.get_property("reg").unwrap();
    assert_eq!(reg.name(), "reg");
    assert_eq!(reg.data, &[0, 0, 0, 5, 0, 0, 0, 7]);
    assert!(reg.offset.is_none());
    assert!(matches!(dev.get_property("nope"), Err(Error::NotFound)));
    assert!(matches!(fdt.get_property(&dev, "regs"), Err(Error::NotFound)));
}

#[test]
fn property_reader_reads_cells_until_exhausted() {
    let fdt = load(board());
    let dev = fdt.get_node("/dev").unwrap();
    let prop = dev.get_property("reset-gpio").unwrap();
    let mut rdr = PropertyReader::from(&prop);
    assert_eq!(rdr.read::<PropertyCellParser>(), Some(9));
    assert_eq!(rdr.read::<PropertyCellParser>(), Some(1));
    assert_eq!(rdr.read::<PropertyCellParser>(), Some(2));
    assert_eq!(rdr.read::<PropertyCellParser>(), Some(7));
    assert_eq!(rdr.read::<PropertyCellParser>(), None);
    let label = dev.get_property("label").unwrap();
    let mut short = PropertyReader::from(&label);
    assert_eq!(short.read::<PropertyCellParser>(), Some(0x75617274));
    assert_eq!(short.read::<PropertyCellParser>(), None);
}

#[test]
fn data_as_str_reads_up_to_nul() {
    let fdt = load(board());
    let dev = fdt.get_node("/dev").unwrap();
    assert_eq!(dev.get_property("label").unwrap().data_as_str().unwrap(), "uart");
    assert!(matches!(dev.get_property("reg").unwrap().data_as_str(), Ok("")));
    assert!(matches!(dev.get_property("model").unwrap().data_as_str(), Err(Error::BadValue)));
    assert!(matches!(dev.get_property("bad-str").unwrap().data_as_str(), Err(Error::BadValue)));
}

#[test]
fn phandles_are_read_and_resolved() {
    let fdt = load(board());
    let clock = fdt.get_node("/clock@5").unwrap();
    assert_eq!(fdt.get_phandle(&clock).unwrap().value(), 5);
    let gpio = fdt.get_node("/gpio").unwrap();
    assert_eq!(fdt.get_phandle(&gpio).unwrap().value(), 9);
    let dev = fdt.get_node("/dev").unwrap();
    assert!(matches!(fdt.get_phandle(&dev), Err(Error::BadPhandle)));
    let target = fdt.get_node_by_phandle(&Phandle::try_from(7).unwrap()).unwrap();
    assert_eq!(target.name(), "regulator");
    assert!(matches!(
        fdt.get_node_by_phandle(&Phandle::try_from(8).unwrap()),
        Err(Error::NotFound)
    ));
}

#[test]
fn reserved_phandle_values_are_rejected() {
    assert!(matches!(Phandle::try_from(0), Err(Error::BadPhandle)));
    assert!(matches!(Phandle::try_from(0xffffffff), Err(Error::BadPhandle)));
    assert_eq!(Phandle::try_from(0xfffffffe).unwrap().value(), 0xfffffffe);
}

#[test]
fn compatible_strings_are_matched_exactly() {
    let fdt = load(board());
    let root = fdt.get_node("/").unwrap();
    assert!(fdt.is_compatible(&root, "acme,board").unwrap());
    assert!(fdt.is_compatible(&root, "acme,soc").unwrap());
    assert!(!fdt.is_compatible(&root, "acme").unwrap());
    assert!(!fdt.is_compatible(&root, "acme,soc2").unwrap());
    let dev = fdt.get_node("/dev").unwrap();
    assert!(matches!(fdt.is_compatible(&dev, "acme,board"), Err(Error::NotFound)));
}

#[test]
fn clocks_link_resolves_one_target() {
    let fdt = load(board());
    let dev = fdt.get_node("/dev").unwrap();
    let links = dev.get_property("clocks").unwrap().links().unwrap().unwrap();
    assert_eq!(names(&links), vec!["clock@5"]);
}

#[test]
fn supply_suffix_link_resolves_one_target() {
    let fdt = load(board());
    let dev = fdt.get_node("/dev").unwrap();
    let links = dev.get_property("foo-supply").unwrap().links().unwrap().unwrap();
    assert_eq!(names(&links), vec!["regulator"]);
}

#[test]
fn gpio_suffix_link_skips_argument_cells() {
    let fdt = load(board());
    let dev = fdt.get_node("/dev").unwrap();
    let links = dev.get_property("reset-gpio").unwrap().links().unwrap().unwrap();
    assert_eq!(names(&links), vec!["gpio", "regulator"]);
}

#[test]
fn supply_link_takes_no_argument_cells() {
    let fdt = load(board());
    let dev = fdt.get_node("/dev").unwrap();
    let links = dev.get_property("bar-supply").unwrap().links().unwrap().unwrap();
    assert_eq!(names(&links), vec!["gpio", "clock@5"]);
}

#[test]
fn links_reencode_to_the_whole_value() {
    let fdt = load(board());
    let dev = fdt.get_node("/dev").unwrap();
    let prop = dev.get_property("reset-gpio").unwrap();
    let links = prop.links().unwrap().unwrap();
    let mut len = 0;
    for target in &links {
        let args = match target.get_property("#gpio-cells") {
            Ok(p) => PropertyReader::from(&p).read::<PropertyCellParser>().unwrap(),
            Err(_) => 0,
        };
        len += 4 * (1 + args as usize);
    }
    assert_eq!(len, prop.data.len());
}

#[test]
fn invalid_phandles_mid_array_are_skipped() {
    let fdt = load(board());
    let dev = fdt.get_node("/dev").unwrap();
    let links = dev.get_property("dmas").unwrap().links().unwrap().unwrap();
    assert_eq!(names(&links), vec!["clock@5", "regulator"]);
}

#[test]
fn unknown_phandle_is_skipped_one_cell() {
    let fdt = load(board());
    let dev = fdt.get_node("/dev").unwrap();
    let links = dev.get_property("resets").unwrap().links().unwrap().unwrap();
    assert_eq!(names(&links), vec!["clock@5"]);
}

#[test]
fn missing_cell_count_defaults_to_zero() {
    let fdt = load(board());
    let dev = fdt.get_node("/dev").unwrap();
    let links = dev.get_property("power-domains").unwrap().links().unwrap().unwrap();
    assert_eq!(names(&links), vec!["regulator", "clock@5"]);
}

#[test]
fn short_cell_count_is_bad_ncells() {
    let fdt = load(board());
    let user = fdt.get_node("/pwmuser").unwrap();
    assert!(matches!(user.get_property("pwms").unwrap().links(), Err(Error::BadNCells)));
}

#[test]
fn non_link_property_is_not_a_link() {
    let fdt = load(board());
    let dev = fdt.get_node("/dev").unwrap();
    assert!(dev.get_property("reg").unwrap().links().unwrap().is_none());
    assert!(dev.get_property("label").unwrap().links().unwrap().is_none());
    let clock = fdt.get_node("/clock@5").unwrap();
    assert!(clock.get_property("#clock-cells").unwrap().links().unwrap().is_none());
}

#[test]
fn link_tables_hold_linux_conventions() {
    let fdt = load(board());
    assert_eq!(fdt.links_simple().len(), 32);
    assert_eq!(fdt.links_simple()[0].name, "clocks");
    assert_eq!(fdt.links_simple()[0].size, "#clock-cells");
    assert_eq!(fdt.links_suffix()[0].name, "-supply");
    assert_eq!(fdt.links_suffix()[1].size, "#gpio-cells");
}

#[test]
fn symbol_table_maps_symbols_to_paths() {
    let fdt = load(board());
    let table = fdt.symbol_table().unwrap();
    assert_eq!(
        table,
        vec![
            ("clk".to_string(), "/clock@5".to_string()),
            ("dev".to_string(), "/dev".to_string())
        ]
    );
    let mut b = Builder::new();
    b.begin(b"").end();
    let bare = load(b.finish());
    assert!(matches!(bare.symbol_table(), Err(Error::NotFound)));
}

#[test]
fn node_refs_resolve_to_paths() {
    let fdt = load(board());
    let by_symbol = FdtNodeRef::Symbol("clk".to_string());
    assert_eq!(fdt.as_path(&by_symbol).unwrap(), "/clock@5");
    let by_path = FdtNodeRef::Path("/dev/child".to_string());
    assert_eq!(fdt.as_path(&by_path).unwrap(), "/dev/child");
    let unknown = FdtNodeRef::Symbol("nope".to_string());
    assert!(matches!(fdt.as_path(&unknown), Err(Error::NotFound)));
}

#[test]
fn non_utf8_node_name_is_bad_value() {
    let mut b = Builder::new();
    b.begin(b"").begin(&[0xff, 0xfe]).end().end();
    let fdt = load(b.finish());
    let root = fdt.get_node("/").unwrap();
    assert!(matches!(fdt.first_subnode(&root), Err(Error::BadValue)));
}

#[test]
fn status_codes_map_to_errors() {
    assert!(matches!(Error::parse(3), Ok(3)));
    assert!(matches!(Error::parse(0), Ok(0)));
    assert!(matches!(Error::parse(-1), Err(Error::NotFound)));
    assert!(matches!(Error::parse(-9), Err(Error::BadMagic)));
    assert!(matches!(Error::parse(-19), Err(Error::Alignment)));
    assert!(matches!(Error::parse(-40), Err(Error::Unknown(-40))));
    assert!(matches!(Error::parse(i32::MIN), Err(Error::Unknown(i32::MIN))));
}

#[test]
fn conventions_compare_and_hash_by_name() {
    let fdt = load(board());
    let set: HashSet<PhandleLink> = fdt.links_simple().iter().cloned().collect();
    assert_eq!(set.len(), 32);
    assert_eq!(set.get("clocks").unwrap().size, "#clock-cells");
    assert!(set.get("reset-gpio").is_none());
    let a = PhandleLink { name: "clocks", size: "" };
    assert!(a == fdt.links_simple()[0]);
    assert!(a != fdt.links_simple()[1]);
    let name: &str = a.borrow();
    assert_eq!(name, "clocks");
}

#[test]
fn nodes_hash_by_offset() {
    let fdt = load(board());
    let mut set = HashSet::new();
    set.insert(fdt.get_node("/dev").unwrap());
    set.insert(fdt.get_node("//dev").unwrap());
    set.insert(fdt.get_node("/gpio").unwrap());
    assert_eq!(set.len(), 2);
    let dev = fdt.path_offset("/dev").unwrap();
    assert_eq!(set.get(&dev).unwrap().name(), "dev");
}

#[test]
fn nodes_compare_by_offset() {
    let fdt = load(board());
    let a = fdt.get_node("/dev").unwrap();
    let b = fdt.get_node("//dev").unwrap();
    let c = fdt.get_node("/gpio").unwrap();
    assert!(a == b);
    assert!(a != c);
}
