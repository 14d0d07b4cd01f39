use collection::listrc::List;

#[test]
fn add_item_into_list() {
    let mut ls = List::<u8>::new();

    for v in 0..100 {
        ls.enqueu(v);
    }
    assert_eq!(ls.len(), 100);
    assert_eq!(ls.dequeu(), Some(0));
}

#[test]
fn enqueu_reports_growing_length() {
    let mut ls = List::<u32>::new();
    assert_eq!(ls.len(), 0);
    assert_eq!(ls.enqueu(10), 1);
    assert_eq!(ls.enqueu(20), 2);
    assert_eq!(ls.enqueu(30), 3);
    assert_eq!(ls.dequeu(), Some(10));
    assert_eq!(ls.dequeu(), Some(20));
    assert_eq!(ls.dequeu(), Some(30));
    assert_eq!(ls.dequeu(), None);
}
