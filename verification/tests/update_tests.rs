//! End-to-end tests of the update pipeline against real zip archives and
//! real RSA-PSS signatures, built in memory.

use bank_update::device::Device;
use bank_update::map_json::parse_cfg;
use bank_update::map_json::render_cfg;
use bank_update::memory::MemoryMapping;
use bank_update::reporting::UpdateError;
use bank_update::software_archive::SoftwareArchive;
use bank_update::update_sequence::async_update;
use bank_update::update_sequence::multi_threaded_update;
use bank_update::update_sequence::sequencial_update;
use bank_update::update_sequence::verify_logical_block;
use bank_update::update_sequence::write_logical_block;

use base64::Engine;
use openssl::hash::MessageDigest;
use openssl::pkey::PKey;
use openssl::pkey::Private;
use openssl::rsa::Padding;
use openssl::rsa::Rsa;
use openssl::sign::RsaPssSaltlen;
use openssl::sign::Signer;
use std::io::Write;

fn make_zip(entries: &[(&str, &[u8])]) -> Vec<u8> {
    let mut cursor = std::io::Cursor::new(Vec::new());
    {
        let mut writer = zip::ZipWriter::new(&mut cursor);
        let options = zip::write::SimpleFileOptions::default();
        for (name, bytes) in entries {
            writer.start_file(name.to_string(), options).unwrap();
            writer.write_all(bytes).unwrap();
        }
        writer.finish().unwrap();
    }
    cursor.into_inner()
}

fn keypair() -> (PKey<Private>, Vec<u8>) {
    let rsa = Rsa::generate(2048).unwrap();
    let key = PKey::from_rsa(rsa).unwrap();
    let public_pem = key.public_key_to_pem().unwrap();
    (key, public_pem)
}

fn sign_pss(key: &PKey<Private>, data: &[u8]) -> String {
    let mut signer = Signer::new(MessageDigest::sha256(), key).unwrap();
    signer.set_rsa_padding(Padding::PKCS1_PSS).unwrap();
    signer.set_rsa_pss_saltlen(RsaPssSaltlen::custom(0)).unwrap();
    signer.set_rsa_mgf1_md(MessageDigest::sha256()).unwrap();
    signer.update(data).unwrap();
    let signature = signer.sign_to_vec().unwrap();
    base64::engine::general_purpose::STANDARD.encode(signature)
}

fn index_xml(entries: &[(&str, &str)]) -> String {
    let mut out = String::from("<index xmlns=\"file_list\">");
    for (short_name, path) in entries {
        out.push_str(&format!(
            "<file short_name=\"{}\"><path xmlns=\"file_list\">{}</path></file>",
            short_name, path
        ));
    }
    out.push_str("</index>");
    out
}

fn manifest_xml(blocks: &[(&str, &str, &str)]) -> String {
    let mut out = String::from("<manifest xmlns=\"logical_blocks\">");
    for (id, short_name, signature) in blocks {
        out.push_str(&format!(
            "<block><id>{}</id><short_name>{}</short_name><signature>{}</signature></block>",
            id, short_name, signature
        ));
    }
    out.push_str("</manifest>");
    out
}

fn region_json(path: &str, offset: u64, size: usize) -> String {
    format!("{{\"path\":\"{}\",\"offset\":{},\"size\":{}}}", path, offset, size)
}

/// One configured block whose bank_b region mirrors bank_a on a shadow
/// path.
fn block_json(name: &str, id: &str, path: &str, offset: u64, size: usize) -> String {
    let shadow = format!("{}.bank_b", path);
    format!(
        "{{\"name\":\"{}\",\"id\":\"{}\",\"destination\":{{\"bank_a\":{},\"bank_b\":{}}}}}",
        name,
        id,
        region_json(path, offset, size),
        region_json(&shadow, offset, size)
    )
}

fn cfg_json(blocks: &[String]) -> String {
    format!("{{\"logical_blocks\":[{}]}}", blocks.join(","))
}

/// An archive holding the given blocks: index, manifest and one payload
/// entry per block.
fn archive_with(key: &PKey<Private>, blocks: &[(&str, &str, &[u8])]) -> Vec<u8> {
    let mut index_entries: Vec<(String, String)> = vec![
        ("update_manifest".to_string(), "manifest.xml".to_string()),
    ];
    let mut manifest_blocks: Vec<(String, String, String)> = Vec::new();
    let mut payloads: Vec<(String, Vec<u8>)> = Vec::new();
    for (id, short_name, payload) in blocks {
        let path = format!("payload/{}.bin", short_name);
        index_entries.push((short_name.to_string(), path.clone()));
        manifest_blocks.push((id.to_string(), short_name.to_string(), sign_pss(key, payload)));
        payloads.push((path, payload.to_vec()));
    }
    let index_refs: Vec<(&str, &str)> =
        index_entries.iter().map(|(a, b)| (a.as_str(), b.as_str())).collect();
    let manifest_refs: Vec<(&str, &str, &str)> = manifest_blocks
        .iter()
        .map(|(a, b, c)| (a.as_str(), b.as_str(), c.as_str()))
        .collect();
    let index = index_xml(&index_refs);
    let manifest = manifest_xml(&manifest_refs);
    let mut entries: Vec<(&str, &[u8])> = vec![
        ("index.xml", index.as_bytes()),
        ("manifest.xml", manifest.as_bytes()),
    ];
    for (path, bytes) in &payloads {
        entries.push((path.as_str(), bytes.as_slice()));
    }
    make_zip(&entries)
}

fn device_with(files: &[(&str, Vec<u8>)]) -> Device {
    let mut device = Device::new();
    for (path, bytes) in files {
        assert!(device.add_file(path.to_string(), bytes.clone()));
    }
    device
}

fn read_back(device: &Device, path: &str, offset: u64, size: usize) -> Vec<u8> {
    device.read_at(&path.to_string(), offset, size).unwrap()
}

#[test]
fn async_update_test() {
    let (key, public_pem) = keypair();
    let payload: Vec<u8> = (0u8..16).collect();
    let archive = archive_with(&key, &[("01", "b01", &payload)]);
    let cfg = cfg_json(&[block_json("first", "01", "/tmp/out.bin", 0, 16)]);
    let mut device = device_with(&[("/tmp/out.bin", vec![0u8; 16])]);
    let result = async_update(&cfg, &archive, &public_pem, &mut device);

    assert_eq!(result, Ok(()))
}

#[test]
fn multi_threaded_update_test() {
    let (key, public_pem) = keypair();
    let payload: Vec<u8> = (0u8..16).collect();
    let archive = archive_with(&key, &[("01", "b01", &payload)]);
    let cfg = cfg_json(&[block_json("first", "01", "/tmp/out.bin", 0, 16)]);
    let mut device = device_with(&[("/tmp/out.bin", vec![0u8; 16])]);
    multi_threaded_update(&cfg, &archive, &public_pem, &mut device).unwrap();
}

#[test]
fn sequencial_update_test() {
    let (key, public_pem) = keypair();
    let payload: Vec<u8> = (0u8..16).collect();
    let archive_bytes = archive_with(&key, &[("01", "b01", &payload)]);
    let archive = SoftwareArchive::from(archive_bytes).unwrap();

    let cfg = cfg_json(&[block_json("first", "01", "/tmp/out.bin", 0, 16)]);
    let mapping = MemoryMapping::from(&cfg).unwrap();

    let mut device = device_with(&[("/tmp/out.bin", vec![0u8; 16])]);
    sequencial_update(&mapping, &archive, &public_pem, &mut device).unwrap();
}

#[test]
fn real_mapping_test() {
    let cfg = cfg_json(&[
        block_json("first", "01", "/tmp/out.bin", 0, 16),
        block_json("second", "02", "/tmp/out.bin", 4096, 16),
    ]);
    let mapping = MemoryMapping::from(&cfg).unwrap();

    for id in mapping.ids() {
        let location = mapping.get_logical_block_destination(&id).unwrap();
        println!("id: {}, location: {:#?}", id, location);
    }
}

#[test]
fn memory_real_mapping_test() {
    let cfg = cfg_json(&[block_json("first", "01", "/tmp/out.bin", 0, 16)]);
    let mapping = MemoryMapping::from(&cfg).unwrap();

    for id in mapping.ids() {
        let location = mapping.get_logical_block_destination(&id).unwrap();
        println!("id: {}, location: {:#?}", id, location);
    }
}

#[test]
fn real_archive_test() {
    let (key, _) = keypair();
    let payload: Vec<u8> = (0u8..16).collect();
    let archive = SoftwareArchive::from(archive_with(&key, &[("01", "b01", &payload)])).unwrap();

    for logical_block in archive.get_logical_blocks() {
        println!(
            "{} logical block (id: 0x{}, signature: {})",
            logical_block.get_short_name(),
            logical_block.get_id(),
            logical_block.get_signature()
        )
    }
}

#[test]
fn happy_path_single_block() {
    let (key, public_pem) = keypair();
    let payload: Vec<u8> = (0u8..16).collect();
    let archive = archive_with(&key, &[("01", "b01", &payload)]);
    let cfg = cfg_json(&[block_json("first", "01", "/tmp/out.bin", 0, 16)]);
    let mut device = device_with(&[("/tmp/out.bin", vec![0xAAu8; 16])]);

    multi_threaded_update(&cfg, &archive, &public_pem, &mut device).unwrap();
    assert_eq!(read_back(&device, "/tmp/out.bin", 0, 16), payload);
}

#[test]
fn happy_path_two_blocks_with_offsets() {
    let (key, public_pem) = keypair();
    let payload_a: Vec<u8> = (0u8..16).collect();
    let payload_b: Vec<u8> = (100u8..116).collect();
    let archive = archive_with(&key, &[("01", "b01", &payload_a), ("02", "b02", &payload_b)]);
    let cfg = cfg_json(&[
        block_json("first", "01", "/tmp/out.bin", 0, 16),
        block_json("second", "02", "/tmp/out.bin", 4096, 16),
    ]);
    let mut device = device_with(&[("/tmp/out.bin", vec![0xAAu8; 5000])]);

    multi_threaded_update(&cfg, &archive, &public_pem, &mut device).unwrap();
    assert_eq!(read_back(&device, "/tmp/out.bin", 0, 16), payload_a);
    assert_eq!(read_back(&device, "/tmp/out.bin", 4096, 16), payload_b);
    // Bytes between the two regions are untouched.
    assert_eq!(read_back(&device, "/tmp/out.bin", 16, 4096 - 16), vec![0xAAu8; 4096 - 16]);
}

#[test]
fn size_mismatch() {
    let (key, public_pem) = keypair();
    // The archive delivers 15 bytes where the map declares 16.
    let payload: Vec<u8> = (0u8..15).collect();
    let later: Vec<u8> = (50u8..66).collect();
    let archive = archive_with(&key, &[("01", "b01", &payload), ("02", "b02", &later)]);
    let cfg = cfg_json(&[
        block_json("first", "01", "/tmp/out.bin", 0, 16),
        block_json("second", "02", "/tmp/later.bin", 0, 16),
    ]);
    let mut device =
        device_with(&[("/tmp/out.bin", vec![0u8; 16]), ("/tmp/later.bin", vec![7u8; 16])]);

    let result = multi_threaded_update(&cfg, &archive, &public_pem, &mut device);
    match result {
        Err(UpdateError::LogicalBlockSize(e)) => assert_eq!(e.logical_block_id, "01"),
        other => panic!("expected LogicalBlockSize, got {:?}", other),
    }
    // The later block was not touched.
    assert_eq!(read_back(&device, "/tmp/later.bin", 0, 16), vec![7u8; 16]);
}

#[test]
fn missing_mapping() {
    let (key, public_pem) = keypair();
    let payload: Vec<u8> = (0u8..16).collect();
    let archive = archive_with(&key, &[("ff", "bff", &payload)]);
    let cfg = cfg_json(&[block_json("first", "01", "/tmp/out.bin", 0, 16)]);
    let mut device = device_with(&[("/tmp/out.bin", vec![0u8; 16])]);

    let result = multi_threaded_update(&cfg, &archive, &public_pem, &mut device);
    match result {
        Err(UpdateError::MissingLogicalBlock(e)) => assert_eq!(e.logical_block_id, "ff"),
        other => panic!("expected MissingLogicalBlock, got {:?}", other),
    }
}

#[test]
fn bad_signature() {
    let (key, public_pem) = keypair();
    let payload: Vec<u8> = (0u8..16).collect();
    let other: Vec<u8> = (200u8..216).collect();
    // The signature is valid base64 but signs different bytes.
    let signature = sign_pss(&key, &other);
    let index = index_xml(&[("update_manifest", "manifest.xml"), ("b01", "payload/b01.bin")]);
    let manifest = manifest_xml(&[("01", "b01", &signature)]);
    let archive = make_zip(&[
        ("index.xml", index.as_bytes()),
        ("manifest.xml", manifest.as_bytes()),
        ("payload/b01.bin", &payload),
    ]);
    let cfg = cfg_json(&[block_json("first", "01", "/tmp/out.bin", 0, 16)]);
    let mut device = device_with(&[("/tmp/out.bin", vec![0u8; 16])]);

    let result = multi_threaded_update(&cfg, &archive, &public_pem, &mut device);
    match result {
        Err(UpdateError::VerificationFailed(e)) => assert_eq!(e.logical_block_id, "01"),
        other => panic!("expected VerificationFailed, got {:?}", other),
    }
    // The write completed; the destination keeps the written bytes.
    assert_eq!(read_back(&device, "/tmp/out.bin", 0, 16), payload);
}

#[test]
fn tampered_destination() {
    let (key, public_pem) = keypair();
    let payload: Vec<u8> = (0u8..16).collect();
    let archive_bytes = archive_with(&key, &[("01", "b01", &payload)]);
    let archive = SoftwareArchive::from(archive_bytes).unwrap();
    let cfg = cfg_json(&[block_json("first", "01", "/tmp/out.bin", 0, 16)]);
    let mapping = MemoryMapping::from(&cfg).unwrap();
    let mut device = device_with(&[("/tmp/out.bin", vec![0u8; 16])]);

    let blocks = archive.get_logical_blocks();
    let info = &blocks[0];
    let reader = archive.get_logical_block_reader(info).unwrap();
    let destination = mapping.get_logical_block_writer(info).unwrap();
    write_logical_block(reader, &destination, &mut device).unwrap();

    // An external mutator flips one byte between write and verify.
    let flipped = vec![payload[3] ^ 0x40];
    assert!(device.write_at(&"/tmp/out.bin".to_string(), 3, &flipped));

    let result = verify_logical_block(destination, info.clone(), &public_pem, &device);
    match result {
        Err(UpdateError::VerificationFailed(e)) => assert_eq!(e.logical_block_id, "01"),
        other => panic!("expected VerificationFailed, got {:?}", other),
    }
}

#[test]
fn block_size_boundaries() {
    let (key, public_pem) = keypair();
    let one: Vec<u8> = vec![0x5A];
    let chunk: Vec<u8> = (0..4096u32).map(|i| (i % 251) as u8).collect();
    let chunk_plus: Vec<u8> = (0..4097u32).map(|i| (i % 241) as u8).collect();
    let archive = archive_with(
        &key,
        &[("01", "b01", &one), ("02", "b02", &chunk), ("03", "b03", &chunk_plus)],
    );
    let cfg = cfg_json(&[
        block_json("one", "01", "/dev/a", 0, 1),
        block_json("chunk", "02", "/dev/b", 0, 4096),
        block_json("chunkplus", "03", "/dev/c", 0, 4097),
    ]);
    let mut device = device_with(&[
        ("/dev/a", vec![0u8; 1]),
        ("/dev/b", vec![0u8; 4096]),
        ("/dev/c", vec![0u8; 4097]),
    ]);

    multi_threaded_update(&cfg, &archive, &public_pem, &mut device).unwrap();
    assert_eq!(read_back(&device, "/dev/a", 0, 1), one);
    assert_eq!(read_back(&device, "/dev/b", 0, 4096), chunk);
    assert_eq!(read_back(&device, "/dev/c", 0, 4097), chunk_plus);
}

#[test]
fn empty_manifest_touches_nothing() {
    let (key, public_pem) = keypair();
    let _ = key;
    let index = index_xml(&[("update_manifest", "manifest.xml")]);
    let manifest = manifest_xml(&[]);
    let archive =
        make_zip(&[("index.xml", index.as_bytes()), ("manifest.xml", manifest.as_bytes())]);
    let cfg = cfg_json(&[block_json("first", "01", "/tmp/out.bin", 0, 16)]);
    let mut device = device_with(&[("/tmp/out.bin", vec![9u8; 16])]);

    multi_threaded_update(&cfg, &archive, &public_pem, &mut device).unwrap();
    assert_eq!(read_back(&device, "/tmp/out.bin", 0, 16), vec![9u8; 16]);
}

#[test]
fn offset_at_end_of_file_extends() {
    let (key, public_pem) = keypair();
    let payload: Vec<u8> = (0u8..4).collect();
    let archive = archive_with(&key, &[("01", "b01", &payload)]);
    let cfg = cfg_json(&[block_json("first", "01", "/tmp/out.bin", 8, 4)]);
    let mut device = device_with(&[("/tmp/out.bin", vec![1u8; 8])]);

    multi_threaded_update(&cfg, &archive, &public_pem, &mut device).unwrap();
    assert_eq!(read_back(&device, "/tmp/out.bin", 8, 4), payload);
    assert_eq!(read_back(&device, "/tmp/out.bin", 0, 8), vec![1u8; 8]);
}

#[test]
fn update_is_idempotent_on_success() {
    let (key, public_pem) = keypair();
    let payload: Vec<u8> = (0u8..16).collect();
    let archive = archive_with(&key, &[("01", "b01", &payload)]);
    let cfg = cfg_json(&[block_json("first", "01", "/tmp/out.bin", 0, 16)]);
    let mut device = device_with(&[("/tmp/out.bin", vec![0u8; 16])]);

    multi_threaded_update(&cfg, &archive, &public_pem, &mut device).unwrap();
    let first = read_back(&device, "/tmp/out.bin", 0, 16);
    multi_threaded_update(&cfg, &archive, &public_pem, &mut device).unwrap();
    let second = read_back(&device, "/tmp/out.bin", 0, 16);
    assert_eq!(first, second);
    assert_eq!(second, payload);
}

#[test]
fn strategies_have_identical_effects() {
    let (key, public_pem) = keypair();
    let payload_a: Vec<u8> = (0u8..16).collect();
    let payload_b: Vec<u8> = (60u8..80).collect();
    let archive_bytes =
        archive_with(&key, &[("01", "b01", &payload_a), ("02", "b02", &payload_b)]);
    let cfg = cfg_json(&[
        block_json("first", "01", "/tmp/out.bin", 0, 16),
        block_json("second", "02", "/tmp/out.bin", 64, 20),
    ]);

    let mut results = Vec::new();
    for strategy in 0..3 {
        let mut device = device_with(&[("/tmp/out.bin", vec![0u8; 100])]);
        let r = match strategy {
            0 => {
                let archive = SoftwareArchive::from(archive_bytes.clone()).unwrap();
                let mapping = MemoryMapping::from(&cfg).unwrap();
                sequencial_update(&mapping, &archive, &public_pem, &mut device)
            }
            1 => multi_threaded_update(&cfg, &archive_bytes, &public_pem, &mut device),
            _ => async_update(&cfg, &archive_bytes, &public_pem, &mut device),
        };
        results.push((r, read_back(&device, "/tmp/out.bin", 0, 100)));
    }
    assert_eq!(results[0], results[1]);
    assert_eq!(results[1], results[2]);
    assert_eq!(results[0].0, Ok(()));
}

#[test]
fn parse_render_parse_is_idempotent() {
    let text = " { \"logical_blocks\" : [ { \"name\" : \"first\", \"id\" : \"01\",\n \
        \"destination\" : { \"bank_a\" : { \"path\" : \"/tmp/a\", \"offset\" : 0, \"size\" : 16 }, \
        \"bank_b\" : { \"path\" : \"/tmp/b\", \"offset\" : 4096, \"size\" : 16 } } } ] } ";
    let parsed = parse_cfg(text).unwrap();
    let rendered = render_cfg(&parsed);
    let reparsed = parse_cfg(&rendered).unwrap();
    let rendered_again = render_cfg(&reparsed);
    assert_eq!(rendered, rendered_again);
}

#[test]
fn manifest_order_is_kept() {
    let (key, _) = keypair();
    let p1: Vec<u8> = vec![1];
    let p2: Vec<u8> = vec![2];
    let p3: Vec<u8> = vec![3];
    let archive = SoftwareArchive::from(archive_with(
        &key,
        &[("0c", "b0c", &p1), ("0a", "b0a", &p2), ("0b", "b0b", &p3)],
    ))
    .unwrap();
    let ids: Vec<String> =
        archive.get_logical_blocks().iter().map(|b| b.get_id()).collect();
    assert_eq!(ids, vec!["0c".to_string(), "0a".to_string(), "0b".to_string()]);
}

#[test]
fn destination_file_missing_is_a_write_error() {
    let (key, public_pem) = keypair();
    let payload: Vec<u8> = (0u8..16).collect();
    let archive = archive_with(&key, &[("01", "b01", &payload)]);
    let cfg = cfg_json(&[block_json("first", "01", "/tmp/absent.bin", 0, 16)]);
    let mut device = Device::new();

    let result = multi_threaded_update(&cfg, &archive, &public_pem, &mut device);
    match result {
        Err(UpdateError::LogicalBlockWrite(e)) => assert_eq!(e.logical_block_id, "01"),
        other => panic!("expected LogicalBlockWrite, got {:?}", other),
    }
}

#[test]
fn archive_entry_missing_is_a_read_error() {
    let (key, public_pem) = keypair();
    let payload: Vec<u8> = (0u8..16).collect();
    let signature = sign_pss(&key, &payload);
    // The index names a payload path that the zip does not hold.
    let index = index_xml(&[("update_manifest", "manifest.xml"), ("b01", "payload/b01.bin")]);
    let manifest = manifest_xml(&[("01", "b01", &signature)]);
    let archive =
        make_zip(&[("index.xml", index.as_bytes()), ("manifest.xml", manifest.as_bytes())]);
    let cfg = cfg_json(&[block_json("first", "01", "/tmp/out.bin", 0, 16)]);
    let mut device = device_with(&[("/tmp/out.bin", vec![0u8; 16])]);

    let result = multi_threaded_update(&cfg, &archive, &public_pem, &mut device);
    match result {
        Err(UpdateError::LogicalBlockRead(e)) => assert_eq!(e.logical_block_id, "01"),
        other => panic!("expected LogicalBlockRead, got {:?}", other),
    }
}

#[test]
fn malformed_map_document_is_fatal() {
    let (_, public_pem) = keypair();
    let archive = make_zip(&[("index.xml", b"<index xmlns=\"file_list\"></index>" as &[u8])]);
    let mut device = Device::new();
    let result = multi_threaded_update("{not json", &archive, &public_pem, &mut device);
    assert!(matches!(result, Err(UpdateError::LogicalBlockRead(_))));
}

#[test]
fn duplicate_id_is_fatal_at_load() {
    let cfg = cfg_json(&[
        block_json("first", "01", "/tmp/a.bin", 0, 16),
        block_json("second", "01", "/tmp/b.bin", 0, 16),
    ]);
    let result = MemoryMapping::from(&cfg);
    match result {
        Err(UpdateError::LogicalBlockRead(e)) => assert_eq!(e.logical_block_id, "01"),
        other => panic!("expected a load failure, got {:?}", other),
    }
}

#[test]
fn missing_index_entry_is_fatal_at_open() {
    let (key, _) = keypair();
    let payload: Vec<u8> = vec![1, 2, 3];
    let signature = sign_pss(&key, &payload);
    // The manifest's short name is absent from the index.
    let index = index_xml(&[("update_manifest", "manifest.xml")]);
    let manifest = manifest_xml(&[("01", "b01", &signature)]);
    let archive =
        make_zip(&[("index.xml", index.as_bytes()), ("manifest.xml", manifest.as_bytes())]);
    let result = SoftwareArchive::from(archive);
    assert!(matches!(result, Err(UpdateError::LogicalBlockRead(_))));
}

#[test]
fn parse_cfg_reads_the_documented_shape() {
    let cfg = cfg_json(&[block_json("first", "01", "/tmp/out.bin", 7, 16)]);
    let parsed = parse_cfg(&cfg).unwrap();
    assert_eq!(parsed.logical_blocks.len(), 1);
    let block = &parsed.logical_blocks[0];
    assert_eq!(block.name, "first");
    assert_eq!(block.id, "01");
    assert_eq!(block.destination.bank_a.get_path(), "/tmp/out.bin");
    assert_eq!(block.destination.bank_a.get_offset(), 7);
    assert_eq!(block.destination.bank_a.get_size(), 16);
    assert_eq!(block.destination.bank_b.get_path(), "/tmp/out.bin.bank_b");
}
