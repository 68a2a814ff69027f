use ningshi::pm::{keys_for, package_of, resolve_uids, users};

#[test]
fn package_identity_comes_from_the_key() {
    assert_eq!(package_of("0:com.example.app").as_deref(), Some("com.example.app"));
    assert_eq!(package_of("10:com.example.app").as_deref(), Some("com.example.app"));
    assert_eq!(package_of("nodots"), None);
    assert_eq!(package_of("0:"), None);
}

#[test]
fn main_user_uid_is_the_app_id() {
    assert_eq!(keys_for(10235, "com.foo", &[0]), vec![("0:com.foo".to_string(), 10235)]);
}

#[test]
fn every_user_gets_its_own_uid() {
    let keys = keys_for(10235, "com.foo", &[0, 10]);
    assert_eq!(keys[0], ("0:com.foo".to_string(), 10235));
    assert_eq!(keys[1], ("10:com.foo".to_string(), 1010235));
}

#[test]
fn a_full_uid_column_still_resolves() {
    // Defensive: if the file ever carries a full uid, take the user from it
    // instead of producing "0:..." entries that match no process.
    let keys = keys_for(1010235, "com.foo", &[0, 10]);
    assert_eq!(keys, vec![("10:com.foo".to_string(), 1010235)]);
}

#[test]
fn the_package_list_gives_a_uid_per_user() {
    let content = "com.foo 10100 0 /data/user/0/com.foo default 3003\n\
                   com.bar 10101 0 /data/user/0/com.bar default none\n\
                   broken\n\
                   com.baz notanumber 0\n";
    let m = resolve_uids(content, &[0, 10]);
    assert_eq!(m.len(), 4);
    assert_eq!(m.get("0:com.foo"), Some(&10100));
    assert_eq!(m.get("10:com.foo"), Some(&1010100));
    assert_eq!(m.get("0:com.bar"), Some(&10101));
    assert_eq!(m.get("10:com.bar"), Some(&1010101));
    assert_eq!(m.get("0:com.baz"), None);
}

#[test]
fn users_come_from_the_directory_names() {
    let names: Vec<String> =
        ["10", "0", "userlist.xml", "999", "x"].iter().map(|s| s.to_string()).collect();
    assert_eq!(users(&names), vec![0, 10, 999]);
    assert_eq!(users(&vec![]), vec![0]);
}
