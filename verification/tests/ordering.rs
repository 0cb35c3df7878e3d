use svg_report::order::sort_rendered_pages;

fn page(path: &str, data: &[u8]) -> (Vec<u8>, Vec<u8>) {
    (path.as_bytes().to_vec(), data.to_vec())
}

#[test]
fn pages_are_sorted_by_path_not_discovery_order() {
    let pages = vec![page("dir/b.svg", b"B"), page("dir/a.svg", b"A")];
    let sorted = sort_rendered_pages(&pages);
    assert_eq!(sorted.len(), 2);
    assert_eq!(sorted[0].0, b"dir/a.svg".to_vec());
    assert_eq!(sorted[0].1, b"A".to_vec());
    assert_eq!(sorted[1].0, b"dir/b.svg".to_vec());
    assert_eq!(sorted[1].1, b"B".to_vec());
}

#[test]
fn sorted_input_is_unchanged() {
    let pages = vec![page("a", b"1"), page("b", b"2"), page("c", b"3")];
    let sorted = sort_rendered_pages(&pages);
    let paths: Vec<&[u8]> = sorted.iter().map(|(p, _)| p.as_slice()).collect();
    assert_eq!(paths, vec![b"a".as_slice(), b"b".as_slice(), b"c".as_slice()]);
}

#[test]
fn prefix_paths_come_first() {
    let pages = vec![page("ab", b"2"), page("a", b"1"), page("abc", b"3")];
    let sorted = sort_rendered_pages(&pages);
    let paths: Vec<&[u8]> = sorted.iter().map(|(p, _)| p.as_slice()).collect();
    assert_eq!(
        paths,
        vec![b"a".as_slice(), b"ab".as_slice(), b"abc".as_slice()]
    );
}
