use bogokernel::fs::{
    chmod_file, create_file, file_exists, file_size, get_file_data, init_writable_fs, list_writable_files, lookup,
    lookup_index, lookup_writable, read_file, stat_file, unlink_file, write_file, File, RamFs,
};

#[test]
fn test_create_file() {
    let mut fs = RamFs::new(Vec::new());
    
    let result = create_file(&mut fs, "test.txt");
    assert!(result.is_ok());
    
    let idx = result.unwrap();
    assert_eq!(idx, 0);
    
    // Verify file was created
    assert!(lookup_writable(&fs, "test.txt").is_some());
}

#[test]
fn test_create_file_truncates_existing() {
    let mut fs = RamFs::new(Vec::new());
    
    // Create file with some data
    let idx1 = create_file(&mut fs, "test.txt").unwrap();
    write_file(&mut fs, idx1, 0, b"Hello").unwrap();
    
    // Create again (should truncate)
    let idx2 = create_file(&mut fs, "test.txt").unwrap();
    assert_eq!(idx1, idx2);
    
    // Verify file is empty
    let size = file_size(&fs, idx2);
    assert_eq!(size, Some(0));
}

#[test]
fn test_write_and_read_file() {
    let mut fs = RamFs::new(Vec::new());
    
    let idx = create_file(&mut fs, "test.txt").unwrap();
    let data = b"Hello, World!";
    
    // Write data
    let written = write_file(&mut fs, idx, 0, data).unwrap();
    assert_eq!(written, data.len());
    
    // Read data back
    let mut buf = vec![0u8; data.len()];
    let read = read_file(&fs, idx, 0, &mut buf).unwrap();
    assert_eq!(read, data.len());
    assert_eq!(&buf[..], data);
}

#[test]
fn test_write_at_offset() {
    let mut fs = RamFs::new(Vec::new());
    
    let idx = create_file(&mut fs, "test.txt").unwrap();
    
    // Write at offset 0
    write_file(&mut fs, idx, 0, b"Hello").unwrap();
    
    // Write at offset 5 (should extend file with zeros)
    write_file(&mut fs, idx, 5, b" World").unwrap();
    
    // Read entire file
    let mut buf = vec![0u8; 11];
    let read = read_file(&fs, idx, 0, &mut buf).unwrap();
    assert_eq!(read, 11);
    assert_eq!(&buf[..], b"Hello World");
}

#[test]
fn test_read_at_offset() {
    let mut fs = RamFs::new(Vec::new());
    
    let idx = create_file(&mut fs, "test.txt").unwrap();
    write_file(&mut fs, idx, 0, b"Hello, World!").unwrap();
    
    // Read from middle of file
    let mut buf = vec![0u8; 5];
    let read = read_file(&fs, idx, 7, &mut buf).unwrap();
    assert_eq!(read, 5);
    assert_eq!(&buf[..], b"World");
}

#[test]
fn test_read_beyond_end() {
    let mut fs = RamFs::new(Vec::new());
    
    let idx = create_file(&mut fs, "test.txt").unwrap();
    write_file(&mut fs, idx, 0, b"Hello").unwrap();
    
    // Try to read beyond file end
    let mut buf = vec![0u8; 10];
    let read = read_file(&fs, idx, 5, &mut buf).unwrap();
    assert_eq!(read, 0);
}

#[test]
fn test_read_partial() {
    let mut fs = RamFs::new(Vec::new());
    
    let idx = create_file(&mut fs, "test.txt").unwrap();
    write_file(&mut fs, idx, 0, b"Hello").unwrap();
    
    // Read with buffer smaller than file
    let mut buf = vec![0u8; 3];
    let read = read_file(&fs, idx, 0, &mut buf).unwrap();
    assert_eq!(read, 3);
    assert_eq!(&buf[..], b"Hel");
}

#[test]
fn test_file_size() {
    let mut fs = RamFs::new(Vec::new());
    
    let idx = create_file(&mut fs, "test.txt").unwrap();
    
    // Empty file
    assert_eq!(file_size(&fs, idx), Some(0));
    
    // After writing
    write_file(&mut fs, idx, 0, b"Hello").unwrap();
    assert_eq!(file_size(&fs, idx), Some(5));
    
    // After writing at offset (extends file)
    write_file(&mut fs, idx, 10, b"World").unwrap();
    assert_eq!(file_size(&fs, idx), Some(15));
}

#[test]
fn test_unlink_file() {
    let mut fs = RamFs::new(Vec::new());
    
    create_file(&mut fs, "test.txt").unwrap();
    assert!(lookup_writable(&fs, "test.txt").is_some());
    
    // Delete file
    let result = unlink_file(&mut fs, "test.txt");
    assert!(result.is_ok());
    
    // Verify file is gone
    assert!(lookup_writable(&fs, "test.txt").is_none());
}

#[test]
fn test_unlink_nonexistent() {
    let mut fs = RamFs::new(Vec::new());
    
    let result = unlink_file(&mut fs, "nonexistent.txt");
    assert!(result.is_err());
}

#[test]
fn test_chmod_file() {
    let mut fs = RamFs::new(Vec::new());
    
    create_file(&mut fs, "test.txt").unwrap();
    
    // Change mode
    let result = chmod_file(&mut fs, "test.txt", 0o755);
    assert!(result.is_ok());
    
    // Verify mode changed
    let stat = stat_file(&fs, "test.txt").unwrap();
    assert_eq!(stat.mode, 0o755);
}

#[test]
fn test_chmod_nonexistent() {
    let mut fs = RamFs::new(Vec::new());
    
    let result = chmod_file(&mut fs, "nonexistent.txt", 0o755);
    assert!(result.is_err());
}

#[test]
fn test_file_exists() {
    let mut fs = RamFs::new(Vec::new());
    
    assert!(!file_exists(&fs, "test.txt"));
    
    create_file(&mut fs, "test.txt").unwrap();
    assert!(file_exists(&fs, "test.txt"));
}

#[test]
fn test_stat_file() {
    let mut fs = RamFs::new(Vec::new());
    
    let idx = create_file(&mut fs, "test.txt").unwrap();
    write_file(&mut fs, idx, 0, b"Hello").unwrap();
    
    let stat = stat_file(&fs, "test.txt").unwrap();
    assert_eq!(stat.size, 5);
    assert_eq!(stat.mode, 0o600);
    assert!(stat.is_writable);
}

#[test]
fn test_stat_nonexistent() {
    let mut fs = RamFs::new(Vec::new());
    
    let stat = stat_file(&fs, "nonexistent.txt");
    assert!(stat.is_none());
}

#[test]
fn test_multiple_files() {
    let mut fs = RamFs::new(Vec::new());
    
    // Create multiple files
    let idx1 = create_file(&mut fs, "file1.txt").unwrap();
    let idx2 = create_file(&mut fs, "file2.txt").unwrap();
    let idx3 = create_file(&mut fs, "file3.txt").unwrap();
    
    // Write different data to each
    write_file(&mut fs, idx1, 0, b"File 1").unwrap();
    write_file(&mut fs, idx2, 0, b"File 2").unwrap();
    write_file(&mut fs, idx3, 0, b"File 3").unwrap();
    
    // Read and verify each file
    let mut buf = vec![0u8; 10];
    
    read_file(&fs, idx1, 0, &mut buf).unwrap();
    assert_eq!(&buf[..6], b"File 1");
    
    read_file(&fs, idx2, 0, &mut buf).unwrap();
    assert_eq!(&buf[..6], b"File 2");
    
    read_file(&fs, idx3, 0, &mut buf).unwrap();
    assert_eq!(&buf[..6], b"File 3");
}

#[test]
fn test_lookup_writable() {
    let mut fs = RamFs::new(Vec::new());
    
    assert!(lookup_writable(&fs, "test.txt").is_none());
    
    create_file(&mut fs, "test.txt").unwrap();
    let idx = lookup_writable(&fs, "test.txt");
    assert!(idx.is_some());
    assert_eq!(idx.unwrap(), 0);
}

#[test]
fn test_write_file_invalid_index() {
    let mut fs = RamFs::new(Vec::new());
    
    let result = write_file(&mut fs, 999, 0, b"data");
    assert!(result.is_err());
}

#[test]
fn test_read_file_invalid_index() {
    let mut fs = RamFs::new(Vec::new());
    
    let mut buf = vec![0u8; 10];
    let result = read_file(&fs, 999, 0, &mut buf);
    assert!(result.is_err());
}

#[test]
fn test_file_size_invalid_index() {
    let mut fs = RamFs::new(Vec::new());
    
    let size = file_size(&fs, 999);
    assert!(size.is_none());
}

#[test]
fn embedded_files_are_found_by_name() {
    let fs = RamFs::new(vec![
        File { name: "a.txt", data: b"first" },
        File { name: "b.elf", data: b"second" },
        File { name: "a.txt", data: b"third" },
    ]);
    assert_eq!(lookup(&fs, "a.txt").unwrap().data, b"first");
    assert_eq!(lookup(&fs, "b.elf").unwrap().data, b"second");
    assert!(lookup(&fs, "c").is_none());
    assert!(lookup(&fs, "a.tx").is_none());
    assert!(lookup(&fs, "").is_none());
    assert_eq!(lookup_index(&fs, "a.txt"), Some(0));
    assert_eq!(lookup_index(&fs, "b.elf"), Some(1));
    assert!(file_exists(&fs, "b.elf"));
    let st = stat_file(&fs, "b.elf").unwrap();
    assert_eq!((st.size, st.mode, st.is_writable), (6, 0o444, false));
    assert!(get_file_data(&fs, "b.elf").is_none());
    assert!(lookup_writable(&fs, "b.elf").is_none());
}

#[test]
fn writable_layer_starts_as_a_copy_of_the_embedded_one() {
    let mut fs = RamFs::new(vec![
        File { name: "a.txt", data: b"first" },
        File { name: "b.elf", data: b"second" },
        File { name: ".elf", data: b"" },
        File { name: "elf", data: b"x" },
        File { name: "c.ELF", data: b"y" },
        File { name: "d.elf ", data: b"z" },
    ]);
    create_file(&mut fs, "mine").unwrap();
    init_writable_fs(&mut fs);
    let modes: Vec<(String, u32)> = fs.files.iter().map(|f| (f.name.clone(), f.mode)).collect();
    assert_eq!(
        modes,
        vec![
            ("mine".to_string(), 0o600),
            ("a.txt".to_string(), 0o644),
            ("b.elf".to_string(), 0o755),
            (".elf".to_string(), 0o755),
            ("elf".to_string(), 0o644),
            ("c.ELF".to_string(), 0o644),
            ("d.elf ".to_string(), 0o644),
        ]
    );
    assert_eq!(get_file_data(&fs, "b.elf"), Some(b"second".to_vec()));
    assert_eq!(get_file_data(&fs, "nothing"), None);
    let st = stat_file(&fs, "b.elf").unwrap();
    assert_eq!((st.size, st.mode, st.is_writable), (6, 0o755, true));
    // the copy is detached
    let idx = lookup_writable(&fs, "b.elf").unwrap();
    write_file(&mut fs, idx, 0, b"S").unwrap();
    assert_eq!(get_file_data(&fs, "b.elf"), Some(b"Second".to_vec()));
    assert_eq!(lookup(&fs, "b.elf").unwrap().data, b"second");
}

#[test]
fn listing_stops_at_the_first_name_that_does_not_fit() {
    let mut fs = RamFs::new(Vec::new());
    for name in ["one", "three", "x", ""] {
        create_file(&mut fs, name).unwrap();
    }
    let mut buf = vec![0xffu8; 12];
    assert_eq!(list_writable_files(&fs, &mut buf), 3);
    assert_eq!(buf, b"one\0three\0x\0".to_vec());
    let mut buf = vec![0xffu8; 13];
    assert_eq!(list_writable_files(&fs, &mut buf), 4);
    assert_eq!(buf, b"one\0three\0x\0\0".to_vec());
    let mut buf = vec![0xffu8; 9];
    assert_eq!(list_writable_files(&fs, &mut buf), 1);
    assert_eq!(buf, b"one\0\xff\xff\xff\xff\xff".to_vec());
    let mut buf = vec![0xffu8; 3];
    assert_eq!(list_writable_files(&fs, &mut buf), 0);
    assert_eq!(buf, vec![0xff; 3]);
    let mut buf = Vec::new();
    assert_eq!(list_writable_files(&fs, &mut buf), 0);
}

#[test]
fn writes_overlay_in_order_on_zeros() {
    let mut fs = RamFs::new(Vec::new());
    let idx = create_file(&mut fs, "f").unwrap();
    let writes: [(usize, &[u8]); 5] = [(4, b"abcd"), (2, b"XYZ"), (10, b""), (12, b"!"), (0, b"0")];
    let mut want = vec![0u8; 13];
    for (off, bytes) in writes {
        assert_eq!(write_file(&mut fs, idx, off, bytes), Ok(bytes.len()));
        want[off..off + bytes.len()].copy_from_slice(bytes);
    }
    assert_eq!(want, b"0\0XYZbcd\0\0\0\0!".to_vec());
    let mut out = vec![0xeeu8; 20];
    assert_eq!(read_file(&fs, idx, 0, &mut out), Ok(13));
    assert_eq!(&out[..13], &want[..]);
    assert_eq!(&out[13..], &[0xee; 7]);
    assert_eq!(file_size(&fs, idx), Some(13));
    // a write that would end past the largest size is refused
    assert_eq!(write_file(&mut fs, idx, usize::MAX, b"ab"), Err(()));
    assert_eq!(file_size(&fs, idx), Some(13));
    let mut none: Vec<u8> = Vec::new();
    assert_eq!(read_file(&fs, idx, 3, &mut none), Ok(0));
}

#[test]
fn unlink_and_chmod_take_the_first_of_a_name() {
    let mut fs = RamFs::new(vec![File { name: "twice", data: b"1" }, File { name: "twice", data: b"22" }]);
    init_writable_fs(&mut fs);
    assert_eq!(chmod_file(&mut fs, "twice", 0o111), Ok(()));
    assert_eq!((fs.files[0].mode, fs.files[1].mode), (0o111, 0o644));
    assert_eq!(unlink_file(&mut fs, "twice"), Ok(()));
    assert_eq!(get_file_data(&fs, "twice"), Some(b"22".to_vec()));
    assert_eq!(unlink_file(&mut fs, "twice"), Ok(()));
    assert_eq!(unlink_file(&mut fs, "twice"), Err(()));
    assert!(file_exists(&fs, "twice"));
    assert_eq!(stat_file(&fs, "twice").unwrap().size, 1);
}
