use rcore_os::vfs::{DiskInodeType, Inode, MODE_DIR, MODE_FILE};

fn name(s: &str) -> Vec<u8> {
    s.as_bytes().to_vec()
}

#[test]
fn create_find_and_ls() {
    let mut d = Inode::new(10, 0, DiskInodeType::Directory);
    let a = d.create(&name("a"), 3, 10, 128).unwrap();
    assert_eq!((a.block_id, a.block_offset, a.type_), (10, 384, DiskInodeType::File));
    assert!(a.entries.is_empty());
    let b = d.create(&name("b"), 4, 10, 128).unwrap();
    assert_eq!((b.block_id, b.block_offset), (11, 0));
    assert!(d.create(&name("a"), 5, 10, 128).is_none());
    assert_eq!(d.find(&name("b"), 10, 128), Some((11, 0)));
    assert_eq!(d.find(&name("z"), 10, 128), None);
    assert_eq!(d.find_inode_id(&name("a")), Some(3));
    assert_eq!(d.find_inode_id(&name("b")), Some(4));
    assert_eq!(d.find_inode_id(&name("c")), None);
    assert_eq!(d.ls(), vec![name("a"), name("b")]);
}

#[test]
fn link_adds_entry_and_count() {
    let mut d = Inode::new(10, 0, DiskInodeType::Directory);
    let mut nlinks = vec![0u32; 8];
    d.create(&name("a"), 3, 10, 128);
    nlinks[3] = 1;
    assert_eq!(d.add_dir_entry(&name("a"), &name("a2"), &mut nlinks), Ok(()));
    assert_eq!(nlinks[3], 2);
    assert_eq!(d.find_inode_id(&name("a2")), Some(3));
    assert_eq!(d.add_dir_entry(&name("zz"), &name("x"), &mut nlinks), Err(()));
    assert_eq!(d.ls(), vec![name("a"), name("a2")]);
}

#[test]
fn unlink_removes_last_match_and_frees_at_zero() {
    let mut d = Inode::new(10, 0, DiskInodeType::Directory);
    let mut nlinks = vec![0u32; 8];
    d.create(&name("a"), 3, 10, 128);
    d.create(&name("b"), 4, 10, 128);
    nlinks[3] = 1;
    nlinks[4] = 1;
    d.add_dir_entry(&name("a"), &name("c"), &mut nlinks).unwrap();
    assert_eq!(d.remove_dir_entry(&name("a"), &mut nlinks), Ok(None));
    assert_eq!(nlinks[3], 1);
    assert_eq!(d.ls(), vec![name("b"), name("c")]);
    assert_eq!(d.remove_dir_entry(&name("c"), &mut nlinks), Ok(Some(3)));
    assert_eq!(nlinks[3], 0);
    assert_eq!(d.remove_dir_entry(&name("c"), &mut nlinks), Err(()));
    assert_eq!(d.ls(), vec![name("b")]);
}

#[test]
fn unlink_of_duplicate_names_takes_the_later_entry() {
    let mut d = Inode::new(10, 0, DiskInodeType::Directory);
    let mut nlinks = vec![1u32, 1, 1];
    d.create(&name("x"), 0, 10, 128);
    d.create(&name("y"), 1, 10, 128);
    d.add_dir_entry(&name("y"), &name("x"), &mut nlinks).unwrap();
    assert_eq!(d.remove_dir_entry(&name("x"), &mut nlinks), Ok(None));
    assert_eq!(nlinks, vec![1, 1, 1]);
    assert_eq!(d.find_inode_id(&name("x")), Some(0));
}

#[test]
fn modes() {
    assert_eq!(Inode::new(10, 0, DiskInodeType::Directory).get_mode(), MODE_DIR);
    assert_eq!(Inode::new(10, 128, DiskInodeType::File).get_mode(), MODE_FILE);
    assert_eq!(MODE_DIR, 0o040000);
    assert_eq!(MODE_FILE, 0o100000);
}

#[test]
fn inode_id_from_position() {
    // 128-byte disk inodes: four per 512-byte block.
    assert_eq!(Inode::new(10, 0, DiskInodeType::Directory).get_inode_id(10, 128), 0);
    assert_eq!(Inode::new(10, 384, DiskInodeType::File).get_inode_id(10, 128), 3);
    assert_eq!(Inode::new(12, 256, DiskInodeType::File).get_inode_id(10, 128), 10);
}

#[test]
fn get_nlink_reads_the_inode_count() {
    let f = Inode::new(10, 384, DiskInodeType::File);
    assert_eq!(f.get_nlink(10, 128, &vec![1, 1, 1, 2]), 2);
}

#[test]
fn link_then_unlink_restores_directory() {
    let mut d = Inode::new(10, 0, DiskInodeType::Directory);
    let mut nlinks = vec![0u32, 0, 1];
    d.create(&name("f"), 2, 10, 128);
    d.add_dir_entry(&name("f"), &name("g"), &mut nlinks).unwrap();
    assert_eq!(d.remove_dir_entry(&name("g"), &mut nlinks), Ok(None));
    assert_eq!(d.ls(), vec![name("f")]);
    assert_eq!(nlinks, vec![0, 0, 1]);
    assert_eq!((d.block_id, d.block_offset, d.type_), (10, 0, DiskInodeType::Directory));
}
