use oskernel::vfs::{DirEntry, Inode, InodeKind, Unlinked};

fn entry(name: &str, inode_id: u32) -> DirEntry {
    DirEntry { name: name.to_string(), inode_id }
}

fn root() -> Inode {
    Inode::new(0, InodeKind::Directory, vec![entry("a", 1), entry("b", 2), entry("c", 1)])
}

#[test]
fn find_returns_first_match() {
    let d = root();
    assert_eq!(d.find(&"b".to_string()), Some(2));
    assert_eq!(d.find_inode_id(&"a".to_string()), Some(1));
    assert_eq!(d.find(&"zz".to_string()), None);
}

#[test]
fn ls_lists_names_in_order() {
    assert_eq!(root().ls(), vec!["a".to_string(), "b".to_string(), "c".to_string()]);
}

#[test]
fn link_count_counts_named_slots() {
    let mut d = root();
    assert_eq!(d.link_count_of(1), 2);
    assert_eq!(d.link_count_of(2), 1);
    assert_eq!(d.link_count_of(9), 0);
    d.entries.push(entry("", 1));
    assert_eq!(d.link_count_of(1), 2);
}

#[test]
fn link_adds_name_for_same_inode() {
    let mut d = root();
    assert!(d.link(&"b".to_string(), &"d".to_string()));
    assert_eq!(d.find(&"d".to_string()), Some(2));
    assert_eq!(d.link_count_of(2), 2);
    assert_eq!(d.entries.len(), 4);
}

#[test]
fn link_refusals() {
    let mut d = root();
    assert!(!d.link(&"a".to_string(), &"a".to_string()));
    assert!(!d.link(&"x".to_string(), &"y".to_string()));
    assert!(!d.link(&"a".to_string(), &"b".to_string()));
    assert_eq!(d.entries.len(), 3);
}

#[test]
fn unlink_reports_last_link() {
    let mut d = root();
    assert_eq!(d.unlink(&"a".to_string()), Some(Unlinked { slot: 0, inode_id: 1, last_link: false }));
    assert_eq!(d.find(&"a".to_string()), None);
    assert_eq!(d.entries[0].name, "");
    assert_eq!(d.entries[0].inode_id, 0);
    assert_eq!(d.unlink(&"c".to_string()), Some(Unlinked { slot: 2, inode_id: 1, last_link: true }));
    assert_eq!(d.unlink(&"c".to_string()), None);
    assert_eq!(d.entries.len(), 3);
}

#[test]
fn kind_and_id_getters() {
    let d = root();
    assert!(d.is_dir_inode());
    assert!(!d.is_file());
    assert_eq!(d.get_inode_id(), 0);
    let f = Inode::new(5, InodeKind::File, vec![]);
    assert!(f.is_file());
    assert_eq!(f.get_inode_id(), 5);
}

#[test]
fn create_appends_new_name() {
    let mut d = root();
    let made = d.create(&"new".to_string(), 9).unwrap();
    assert_eq!(made.get_inode_id(), 9);
    assert!(made.is_file());
    assert!(made.entries.is_empty());
    assert_eq!(d.find(&"new".to_string()), Some(9));
    assert_eq!(d.ls().last().map(|s| s.as_str()), Some("new"));
    assert_eq!(d.link_count_of(9), 1);
}

#[test]
fn create_refuses_existing_name() {
    let mut d = root();
    assert!(d.create(&"b".to_string(), 9).is_none());
    assert_eq!(d.entries.len(), 3);
    assert_eq!(d.find(&"b".to_string()), Some(2));
}

#[test]
fn emptied_slots_are_skipped() {
    let mut d = root();
    assert!(d.unlink(&"a".to_string()).is_some());
    assert_eq!(d.find(&"".to_string()), None);
    assert_eq!(d.find_inode_id(&"".to_string()), None);
    assert_eq!(d.unlink(&"".to_string()), None);
    assert!(!d.link(&"".to_string(), &"x".to_string()));
    assert_eq!(d.entries.len(), 3);
    assert_eq!(d.entries[0].name, "");
}

#[test]
fn name_reused_after_unlink_finds_new_slot() {
    let mut d = root();
    d.unlink(&"a".to_string());
    assert!(d.create(&"a".to_string(), 7).is_some());
    assert_eq!(d.find(&"a".to_string()), Some(7));
}
