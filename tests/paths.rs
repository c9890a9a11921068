use xv7_fs::path::{name_eq, name_less, split_path};

fn split(s: &str) -> Vec<Vec<u8>> {
    split_path(&s.as_bytes().to_vec())
}

#[test]
fn split_drops_empty_components() {
    assert_eq!(split("/"), Vec::<Vec<u8>>::new());
    assert_eq!(split(""), Vec::<Vec<u8>>::new());
    assert_eq!(split("/a/"), vec![b"a".to_vec()]);
    assert_eq!(split("//a//bc/"), vec![b"a".to_vec(), b"bc".to_vec()]);
    assert_eq!(split("x/y"), vec![b"x".to_vec(), b"y".to_vec()]);
}

#[test]
fn names_compare_bytewise() {
    let a = b"a".to_vec();
    let ab = b"ab".to_vec();
    let big_b = b"B".to_vec();
    assert!(name_less(&a, &ab));
    assert!(!name_less(&ab, &a));
    assert!(name_less(&big_b, &a));
    assert!(!name_less(&a, &a));
    assert!(name_less(&Vec::new(), &a));
    assert!(name_eq(&ab, &b"ab".to_vec()));
    assert!(!name_eq(&ab, &a));
}
