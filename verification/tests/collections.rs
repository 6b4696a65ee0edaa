//! Contents by section name, and stable sorting.

use elf_rewrite::codec::overwrite;
use elf_rewrite::order::stable_order;
use elf_rewrite::sections::SectionMap;

#[test]
fn contents_are_kept_in_the_order_of_their_names() {
    let mut map = SectionMap::new();
    assert_eq!(map.len(), 0);
    assert!(map.get(".interp").is_none());
    map.put(".interp", vec![1]);
    map.put(".dynstr", vec![2]);
    map.put(".dynamic", vec![3]);
    map.put(".note", vec![4]);
    let names: Vec<&str> = (0..map.len()).map(|i| map.name(i)).collect();
    assert_eq!(names, vec![".dynamic", ".dynstr", ".interp", ".note"]);
    assert_eq!(map.content(1), &vec![2]);
    assert_eq!(map.get(".interp"), Some(&vec![1]));
}

#[test]
fn a_content_takes_the_place_of_the_one_before() {
    let mut map = SectionMap::new();
    map.put("a", vec![1]);
    map.put("b", vec![2]);
    map.put("a", vec![3, 4]);
    assert_eq!(map.len(), 2);
    assert_eq!(map.get("a"), Some(&vec![3, 4]));
    assert_eq!(map.get("b"), Some(&vec![2]));
    assert!(map.get("c").is_none());
    let copy = map.duplicate();
    map.put("c", vec![]);
    assert_eq!(copy.len(), 2);
    assert_eq!(copy.get("a"), Some(&vec![3, 4]));
}

#[test]
fn equal_keys_keep_their_order() {
    assert_eq!(stable_order(&vec![3, 1, 2, 1, 3]), vec![1, 3, 2, 0, 4]);
    assert_eq!(stable_order(&vec![]), Vec::<usize>::new());
    assert_eq!(stable_order(&vec![5, 5, 5]), vec![0, 1, 2]);
    assert_eq!(stable_order(&vec![u128::MAX, 0]), vec![1, 0]);
}

#[test]
fn bytes_are_written_over_others() {
    let mut bytes = b"abcdef".to_vec();
    overwrite(&mut bytes, 2, b"XY");
    assert_eq!(bytes, b"abXYef");
    overwrite(&mut bytes, 6, b"");
    assert_eq!(bytes, b"abXYef");
}
