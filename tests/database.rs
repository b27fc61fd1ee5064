use maxminddb::{Error, IpAddress, Metadata, Reader, Record, ResultValue};

const SENTINEL: [u8; 14] = [
    0xAB, 0xCD, 0xEF, 0x4D, 0x61, 0x78, 0x4D, 0x69, 0x6E, 0x64, 0x2E, 0x63, 0x6F, 0x6D,
];

fn ctrl(tag: u8, size: usize) -> Vec<u8> {
    assert!(size < 29);
    if tag <= 7 {
        vec![(tag << 5) | size as u8]
    } else {
        vec![size as u8, tag - 7]
    }
}

fn text(s: &str) -> Vec<u8> {
    let mut v = ctrl(2, s.len());
    v.extend_from_slice(s.as_bytes());
    v
}

fn map_of(n: usize) -> Vec<u8> {
    ctrl(7, n)
}

fn array_of(n: usize) -> Vec<u8> {
    ctrl(11, n)
}

fn double(x: f64) -> Vec<u8> {
    let mut v = ctrl(3, 8);
    v.extend_from_slice(&x.to_bits().to_be_bytes());
    v
}

fn boolean(b: bool) -> Vec<u8> {
    ctrl(14, b as usize)
}

fn uint16(x: u16) -> Vec<u8> {
    let mut v = ctrl(5, 2);
    v.extend_from_slice(&x.to_be_bytes());
    v
}

fn uint32(x: u32) -> Vec<u8> {
    let mut v = ctrl(6, 4);
    v.extend_from_slice(&x.to_be_bytes());
    v
}

fn pointer(target: usize) -> Vec<u8> {
    assert!(target < 2048);
    vec![0x20 | (target >> 8) as u8, (target & 0xFF) as u8]
}

fn set_record(tree: &mut [u8], record_size: usize, node: usize, right: bool, v: u32) {
    let w = record_size / 4;
    let off = node * w;
    match record_size {
        28 => {
            let start = if right { off + 4 } else { off };
            tree[start] = (v >> 16) as u8;
            tree[start + 1] = (v >> 8) as u8;
            tree[start + 2] = v as u8;
            let nibble = ((v >> 24) & 0x0F) as u8;
            if right {
                tree[off + 3] = (tree[off + 3] & 0xF0) | nibble;
            } else {
                tree[off + 3] = (tree[off + 3] & 0x0F) | (nibble << 4);
            }
        }
        _ => {
            let h = w / 2;
            let start = if right { off + h } else { off };
            let bytes = v.to_be_bytes();
            tree[start..start + h].copy_from_slice(&bytes[4 - h..]);
        }
    }
}

fn metadata_block(node_count: u32, record_size: u16, ip_version: u16) -> Vec<u8> {
    let mut m = SENTINEL.to_vec();
    m.extend(map_of(5));
    m.extend(text("binary_format_major_version"));
    m.extend(uint16(2));
    m.extend(text("node_count"));
    m.extend(uint32(node_count));
    m.extend(text("record_size"));
    m.extend(uint16(record_size));
    m.extend(text("ip_version"));
    m.extend(uint16(ip_version));
    m.extend(text("database_type"));
    m.extend(text("GeoIP2-City"));
    m
}

/// A trie of `node_count` nodes whose records all say "no data", with a
/// chain of nodes from `start` along the bits of `key` that ends in `value`.
fn tree_with_path(
    node_count: usize,
    record_size: usize,
    start: usize,
    key: u128,
    bits: usize,
    first_free: usize,
    value: u32,
) -> Vec<u8> {
    let mut tree = vec![0u8; node_count * record_size / 4];
    for node in 0..node_count {
        set_record(&mut tree, record_size, node, false, node_count as u32);
        set_record(&mut tree, record_size, node, true, node_count as u32);
    }
    add_path(&mut tree, record_size, start, key, bits, first_free, value);
    tree
}

fn add_path(
    tree: &mut [u8],
    record_size: usize,
    start: usize,
    key: u128,
    bits: usize,
    first_free: usize,
    value: u32,
) {
    let mut node = start;
    for i in 0..bits {
        let right = (key >> (bits - 1 - i)) & 1 == 1;
        let v = if i == bits - 1 {
            value
        } else {
            (first_free + i) as u32
        };
        set_record(tree, record_size, node, right, v);
        node = v as usize;
    }
}

const LONDON_IP: [u8; 4] = [81, 2, 69, 160];

/// A small city database: 1431 nodes of 28-bit records, version 6, and a
/// record for 81.2.69.160 at 2589. Some keys and strings sit behind pointers.
fn city_image() -> Vec<u8> {
    let node_count = 1431;
    let key = u32::from_be_bytes(LONDON_IP) as u128;
    let tree = tree_with_path(node_count, 28, 96, key, 32, 200, 2589);

    let mut data: Vec<u8> = Vec::new();
    let london = data.len();
    data.extend(text("London"));
    let names_key = data.len();
    data.extend(text("names"));
    let country_names = data.len();
    data.extend(map_of(2));
    data.extend(text("en"));
    data.extend(text("United Kingdom"));
    data.extend(text("fr"));
    data.extend(text("Royaume-Uni"));
    data.resize(2589 - node_count - 16, 0);

    data.extend(map_of(4));
    data.extend(text("city"));
    data.extend(map_of(1));
    data.extend(pointer(names_key));
    data.extend(map_of(2));
    data.extend(text("de"));
    data.extend(text("London"));
    data.extend(text("en"));
    data.extend(pointer(london));

    data.extend(text("country"));
    data.extend(map_of(3));
    data.extend(text("iso_code"));
    data.extend(text("GB"));
    data.extend(pointer(names_key));
    data.extend(pointer(country_names));
    data.extend(text("is_in_european_union"));
    data.extend(boolean(true));

    data.extend(text("location"));
    data.extend(map_of(2));
    data.extend(text("latitude"));
    data.extend(double(51.5142));
    data.extend(text("longitude"));
    data.extend(double(-0.0931));

    data.extend(text("subdivisions"));
    data.extend(array_of(1));
    data.extend(map_of(2));
    data.extend(text("iso_code"));
    data.extend(text("ENG"));
    data.extend(text("names"));
    data.extend(map_of(1));
    data.extend(text("en"));
    data.extend(text("England"));

    let mut image = tree;
    image.extend(vec![0u8; 16]);
    image.extend(data);
    image.extend(metadata_block(node_count as u32, 28, 6));
    image
}

fn city_reader() -> Reader {
    Reader::from_bytes(city_image()).unwrap()
}

fn text_of(r: &Record, path: &str) -> String {
    match r.get(path) {
        Some(ResultValue::String(s)) => s.clone(),
        other => panic!("{} is {:?}", path, other),
    }
}

fn double_of(r: &Record, path: &str) -> f64 {
    match r.get(path) {
        Some(ResultValue::Double(bits)) => f64::from_bits(*bits),
        other => panic!("{} is {:?}", path, other),
    }
}

#[test]
fn lookup_array() {
    let ip = IpAddress::V4(LONDON_IP);
    let reader = city_reader();

    let fields = vec!["city.names.en", "subdivisions.0.names.en"];
    let mut result = Record::new();

    assert!(reader.lookup(&ip, &fields, &mut result).unwrap().is_some());

    assert_eq!(text_of(&result, "subdivisions.0.names.en"), String::from("England"));
    assert_eq!(text_of(&result, "city.names.en"), String::from("London"));
}

#[test]
fn location_lookup() {
    let ip = IpAddress::V4(LONDON_IP);
    let reader = city_reader();
    let fields = vec!["location.latitude", "location.longitude"];
    let mut result = Record::new();
    assert!(reader.lookup(&ip, &fields, &mut result).unwrap().is_some());

    assert_eq!(double_of(&result, "location.latitude"), 51.514_2);
    assert_eq!(double_of(&result, "location.longitude"), -0.093_1);
}

#[test]
fn lookup() {
    let ip = IpAddress::V4(LONDON_IP);
    let reader = city_reader();
    let fields = vec![
        "city.names.en",
        "country.names.en",
        "country.is_in_european_union",
    ];
    let mut result = Record::new();
    assert!(reader.lookup(&ip, &fields, &mut result).unwrap().is_some());

    assert_eq!(text_of(&result, "country.names.en"), String::from("United Kingdom"));
    assert_eq!(text_of(&result, "city.names.en"), String::from("London"));
    assert!(matches!(
        result.get("country.is_in_european_union"),
        Some(ResultValue::Boolean(_))
    ));
    assert_eq!(result.len(), 3);
}

#[test]
fn metadata_parsing() {
    let reader = city_reader();
    assert_eq!(reader.metadata().node_count, 1431);
    assert_eq!(reader.metadata().record_size, 28);
    assert_eq!(reader.metadata().ip_version, 6);
}

#[test]
fn find_ip_offset() {
    let ip = IpAddress::V4(LONDON_IP);
    let reader = city_reader();
    let offset = reader.find_ip_offset(&ip).unwrap().unwrap();
    assert_eq!(offset, 2589);
}

#[test]
fn ip_bitmask() {
    let ip = IpAddress::V4([81, 2, 69, 160]);
    let (bitmask, size) = Reader::ip_to_bitmask(&ip);
    assert_eq!(bitmask, 1359103392);
    assert_eq!(size, 32);
    // and ipv6: all 128 bits, of which the last 32 are 0x03707334
    let ip = IpAddress::V6([
        0x20, 0x01, 0x0d, 0xb8, 0x85, 0xa3, 0x00, 0x00, 0x00, 0x00, 0x8a, 0x2e, 0x03, 0x70, 0x73,
        0x34,
    ]);
    let (bitmask, size) = Reader::ip_to_bitmask(&ip);
    assert_eq!(bitmask, 0x2001_0db8_85a3_0000_0000_8a2e_0370_7334);
    assert_eq!(bitmask as u32, 57701172);
    assert_eq!(size, 128);
}

#[test]
fn unknown_address_is_not_found() {
    let reader = city_reader();
    let mut result = Record::new();
    let ip = IpAddress::V4([81, 2, 69, 161]);
    assert_eq!(reader.find_ip_offset(&ip), Ok(None));
    assert_eq!(reader.lookup(&ip, &["city.names.en"], &mut result), Ok(None));
    assert_eq!(result.len(), 0);
}

#[test]
fn missing_key_is_absent_and_leaves_others() {
    let reader = city_reader();
    let ip = IpAddress::V4(LONDON_IP);
    let mut result = Record::new();
    let fields = ["city.names.xx", "country.iso_code", "postal.code"];
    assert_eq!(reader.lookup(&ip, &fields, &mut result), Ok(Some(())));
    assert_eq!(result.len(), 1);
    assert!(result.get("city.names.xx").is_none());
    assert!(result.get("postal.code").is_none());
    assert_eq!(text_of(&result, "country.iso_code"), "GB");
}

#[test]
fn only_missing_keys_is_not_found() {
    let reader = city_reader();
    let ip = IpAddress::V4(LONDON_IP);
    let mut result = Record::new();
    assert_eq!(reader.lookup(&ip, &["postal.code"], &mut result), Ok(None));
    assert_eq!(result.len(), 0);
}

#[test]
fn index_at_array_size_is_absent() {
    let reader = city_reader();
    let ip = IpAddress::V4(LONDON_IP);
    let mut result = Record::new();
    let fields = ["subdivisions.1.names.en", "subdivisions.7", "subdivisions.x"];
    assert_eq!(reader.lookup(&ip, &fields, &mut result), Ok(None));
    assert_eq!(result.len(), 0);
    assert_eq!(
        reader.lookup(&ip, &["subdivisions.0.iso_code"], &mut result),
        Ok(Some(()))
    );
    assert_eq!(text_of(&result, "subdivisions.0.iso_code"), "ENG");
}

#[test]
fn empty_path_list_finds_the_map() {
    let reader = city_reader();
    let ip = IpAddress::V4(LONDON_IP);
    let mut result = Record::new();
    assert_eq!(reader.lookup(&ip, &[], &mut result), Ok(Some(())));
    assert_eq!(result.len(), 0);
}

#[test]
fn union_of_path_lists() {
    let reader = city_reader();
    let ip = IpAddress::V4(LONDON_IP);
    let p = ["city.names.en", "location.latitude"];
    let q = ["country.names.fr", "city.names.de"];
    let both = ["city.names.en", "location.latitude", "country.names.fr", "city.names.de"];
    let mut rp = Record::new();
    let mut rq = Record::new();
    let mut rboth = Record::new();
    reader.lookup(&ip, &p, &mut rp).unwrap();
    reader.lookup(&ip, &q, &mut rq).unwrap();
    reader.lookup(&ip, &both, &mut rboth).unwrap();
    let mut joined = rp.into_entries();
    joined.extend(rq.into_entries());
    let all = rboth.into_entries();
    assert_eq!(joined.len(), all.len());
    for (a, b) in joined.iter().zip(all.iter()) {
        assert_eq!(a.0, b.0);
        assert_eq!(format!("{:?}", a.1), format!("{:?}", b.1));
    }
    assert_eq!(all[2].0, "country.names.fr");
}

#[test]
fn string_keeps_its_bytes() {
    let reader = city_reader();
    let ip = IpAddress::V4(LONDON_IP);
    let mut result = Record::new();
    reader.lookup(&ip, &["country.names.fr"], &mut result).unwrap();
    assert_eq!(text_of(&result, "country.names.fr").as_bytes(), b"Royaume-Uni");
}

#[test]
fn duplicate_paths_insert_twice_and_the_last_wins() {
    let reader = city_reader();
    let ip = IpAddress::V4(LONDON_IP);
    let mut result = Record::new();
    let fields = ["city.names.en", "city.names.en"];
    reader.lookup(&ip, &fields, &mut result).unwrap();
    assert_eq!(result.len(), 2);
    assert_eq!(text_of(&result, "city.names.en"), "London");
    result.clear();
    assert_eq!(result.len(), 0);
    assert!(result.get("city.names.en").is_none());
}

#[test]
fn ipv4_in_ipv6_database_starts_at_node_96() {
    // The same bits from the root lead elsewhere: only the walk from node 96
    // reaches 2589.
    let node_count = 1431;
    let key = u32::from_be_bytes(LONDON_IP) as u128;
    let mut tree = tree_with_path(node_count, 28, 96, key, 32, 200, 2589);
    add_path(&mut tree, 28, 0, key, 32, 300, 2000);
    let mut data = vec![0u8; 2589 - node_count - 16];
    data.extend(map_of(0));
    let mut image = tree;
    image.extend(vec![0u8; 16]);
    image.extend(data);
    image.extend(metadata_block(node_count as u32, 28, 6));
    let reader = Reader::from_bytes(image).unwrap();
    assert_eq!(reader.find_ip_offset(&IpAddress::V4(LONDON_IP)), Ok(Some(2589)));
}

#[test]
fn ipv4_database_starts_at_the_root() {
    let node_count = 100;
    let key = u32::from_be_bytes(LONDON_IP) as u128;
    let tree = tree_with_path(node_count, 24, 0, key, 32, 40, 200);
    let mut data = vec![0u8; 200 - node_count - 16];
    data.extend(map_of(1));
    data.extend(text("k"));
    data.extend(uint16(513));
    let mut image = tree;
    image.extend(vec![0u8; 16]);
    image.extend(data);
    image.extend(metadata_block(node_count as u32, 24, 4));
    let reader = Reader::from_bytes(image).unwrap();
    assert_eq!(reader.find_ip_offset(&IpAddress::V4(LONDON_IP)), Ok(Some(200)));
    let mut result = Record::new();
    assert_eq!(reader.lookup(&IpAddress::V4(LONDON_IP), &["k"], &mut result), Ok(Some(())));
    assert!(matches!(result.get("k"), Some(ResultValue::Uint(513))));
}

#[test]
fn ipv6_lookup_with_32_bit_records() {
    let node_count = 300;
    let octets: [u8; 16] = [
        0x20, 0x01, 0x0d, 0xb8, 0x85, 0xa3, 0, 0, 0, 0, 0x8a, 0x2e, 0x03, 0x70, 0x73, 0x34,
    ];
    let key = u128::from_be_bytes(octets);
    let value: u32 = 0x0001_0000 + node_count as u32;
    let tree = tree_with_path(node_count, 32, 0, key, 128, 150, value);
    assert_eq!(tree.len(), node_count * 8);
    let mut data = vec![0u8; (value as usize) - node_count - 16];
    data.extend(map_of(1));
    data.extend(text("ok"));
    data.extend(boolean(true));
    let mut image = tree;
    image.extend(vec![0u8; 16]);
    image.extend(data);
    image.extend(metadata_block(node_count as u32, 32, 6));
    let reader = Reader::from_bytes(image).unwrap();
    assert_eq!(reader.find_ip_offset(&IpAddress::V6(octets)), Ok(Some(value as u64)));
    let mut result = Record::new();
    assert_eq!(reader.lookup(&IpAddress::V6(octets), &["ok"], &mut result), Ok(Some(())));
    assert!(matches!(result.get("ok"), Some(ResultValue::Boolean(true))));
}

#[test]
fn record_28_splits_the_middle_byte() {
    // Left and right records of node 0 differ in their top nibble.
    let node_count = 2;
    let mut tree = vec![0u8; node_count * 7];
    set_record(&mut tree, 28, 0, false, 0x0100_0005);
    set_record(&mut tree, 28, 0, true, 0x0200_0007);
    assert_eq!(tree[3], 0x12);
    set_record(&mut tree, 28, 1, false, 2);
    set_record(&mut tree, 28, 1, true, 2);
    let mut image = tree;
    image.extend(vec![0u8; 16]);
    image.extend(metadata_block(node_count as u32, 28, 4));
    let reader = Reader::from_bytes(image).unwrap();
    // 0.x.x.x goes left at the first bit, 128.x.x.x right.
    assert_eq!(reader.find_ip_offset(&IpAddress::V4([0, 0, 0, 0])), Ok(Some(0x0100_0005)));
    assert_eq!(reader.find_ip_offset(&IpAddress::V4([128, 0, 0, 0])), Ok(Some(0x0200_0007)));
}

#[test]
fn record_pointing_into_the_separator_is_malformed() {
    let node_count = 2;
    let mut tree = vec![0u8; node_count * 6];
    set_record(&mut tree, 24, 0, false, 5);
    set_record(&mut tree, 24, 0, true, 2);
    set_record(&mut tree, 24, 1, false, 2);
    set_record(&mut tree, 24, 1, true, 2);
    let mut image = tree;
    image.extend(vec![0u8; 16]);
    image.extend(metadata_block(node_count as u32, 24, 4));
    let reader = Reader::from_bytes(image).unwrap();
    let mut result = Record::new();
    assert_eq!(
        reader.lookup(&IpAddress::V4([0, 0, 0, 0]), &["a"], &mut result),
        Err(Error::MalformedData)
    );
    assert_eq!(
        reader.lookup(&IpAddress::V4([200, 0, 0, 0]), &["a"], &mut result),
        Ok(None)
    );
}

#[test]
fn malformed_value_stops_with_earlier_fields_kept() {
    let node_count = 1;
    let mut tree = vec![0u8; 6];
    set_record(&mut tree, 24, 0, false, 17);
    set_record(&mut tree, 24, 0, true, 17);
    let mut data = Vec::new();
    data.extend(map_of(2));
    data.extend(text("a"));
    data.extend(uint16(7));
    data.extend(text("b"));
    data.extend(ctrl(2, 2));
    data.extend([0xFF, 0xFE]);
    let mut image = tree;
    image.extend(vec![0u8; 16]);
    image.extend(data);
    image.extend(metadata_block(node_count as u32, 24, 4));
    let reader = Reader::from_bytes(image).unwrap();
    let mut result = Record::new();
    let ip = IpAddress::V4([1, 2, 3, 4]);
    assert_eq!(reader.lookup(&ip, &["a", "b", "a"], &mut result), Err(Error::MalformedData));
    assert_eq!(result.len(), 1);
    assert!(matches!(result.get("a"), Some(ResultValue::Uint(7))));
}

#[test]
fn metadata_offset_ignores_what_comes_before() {
    let tail = metadata_block(1, 24, 4);
    let short = Metadata::get_metadata_block_offset(&tail);
    assert_eq!(short, Some(14));
    let mut longer = vec![7u8; 100];
    longer.extend(SENTINEL);
    longer.extend(tail.clone());
    assert_eq!(Metadata::get_metadata_block_offset(&longer), Some(100 + 14 + 14));
    let a = Metadata::parse_metadata(&tail).unwrap();
    let b = Metadata::parse_metadata(&longer).unwrap();
    assert_eq!(a, b);
    assert_eq!(a.node_count, 1);
}

#[test]
fn no_sentinel_is_malformed_metadata() {
    let bytes = vec![0u8; 64];
    assert_eq!(Metadata::get_metadata_block_offset(&bytes), None);
    assert_eq!(Metadata::parse_metadata(&bytes), Err(Error::MalformedMetadata));
    assert!(matches!(Reader::from_bytes(bytes), Err(Error::MalformedMetadata)));
}

#[test]
fn bad_record_size_is_malformed_metadata() {
    let mut image = vec![0u8; 40];
    image.extend(metadata_block(1, 30, 4));
    assert_eq!(Metadata::parse_metadata(&image), Err(Error::MalformedMetadata));
}

#[test]
fn missing_metadata_key_is_malformed_metadata() {
    let mut m = SENTINEL.to_vec();
    m.extend(map_of(2));
    m.extend(text("node_count"));
    m.extend(uint32(1));
    m.extend(text("record_size"));
    m.extend(uint16(24));
    assert_eq!(Metadata::parse_metadata(&m), Err(Error::MalformedMetadata));
}

#[test]
fn trie_larger_than_the_image_opens_and_lookups_fail() {
    // node 0 sends 0.x.x.x to node 900, far beyond the image
    let mut image = vec![0u8; 20];
    set_record(&mut image, 24, 0, false, 900);
    image.extend(metadata_block(1000, 24, 4));
    let reader = Reader::from_bytes(image).unwrap();
    assert_eq!(reader.metadata().node_count, 1000);
    let ip = IpAddress::V4([1, 2, 3, 4]);
    assert_eq!(reader.find_ip_offset(&IpAddress::V4([255, 255, 255, 255])), Ok(None));
    assert_eq!(reader.find_ip_offset(&ip), Err(Error::MalformedData));
    let mut result = Record::new();
    assert_eq!(reader.lookup(&ip, &["a"], &mut result), Err(Error::MalformedData));
    assert_eq!(result.len(), 0);
}

#[test]
fn small_ipv6_trie_serves_ipv6_and_fails_ipv4() {
    // 40 nodes: no node 96 to start version 4 addresses from
    let node_count = 40;
    let octets: [u8; 16] = [0x20, 0x01, 0x0d, 0xb8, 0, 0, 0, 0, 0, 0, 0, 0, 0, 0, 0, 1];
    let key = u128::from_be_bytes(octets);
    // the walk ends after the first eight bits
    let tree = tree_with_path(node_count, 24, 0, key >> 120, 8, 1, 100);
    let mut data = vec![0u8; 100 - node_count - 16];
    data.extend(map_of(1));
    data.extend(text("k"));
    data.extend(text("v"));
    let mut image = tree;
    image.extend(vec![0u8; 16]);
    image.extend(data);
    image.extend(metadata_block(node_count as u32, 24, 6));
    let reader = Reader::from_bytes(image).unwrap();
    let mut result = Record::new();
    assert_eq!(reader.lookup(&IpAddress::V6(octets), &["k"], &mut result), Ok(Some(())));
    assert_eq!(text_of(&result, "k"), "v");
    assert_eq!(
        reader.find_ip_offset(&IpAddress::V4([1, 2, 3, 4])),
        Err(Error::MalformedData)
    );
}

#[test]
fn trie_without_nodes_opens_and_lookups_fail() {
    let mut image = vec![0u8; 16];
    image.extend(metadata_block(0, 24, 4));
    let reader = Reader::from_bytes(image).unwrap();
    let mut result = Record::new();
    assert_eq!(
        reader.lookup(&IpAddress::V4([1, 2, 3, 4]), &[], &mut result),
        Err(Error::MalformedData)
    );
}

#[test]
fn image_shorter_than_the_sentinel_is_an_io_error() {
    assert!(matches!(Reader::from_bytes(vec![0u8; 13]), Err(Error::Io)));
    assert!(matches!(Reader::from_bytes(Vec::new()), Err(Error::Io)));
}
