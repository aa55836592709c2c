use pagedb::data_access_layer::DataAccessLayer;
use pagedb::error::DbError;
use pagedb::free_list::FreeList;
use pagedb::meta::Meta;
use pagedb::node::{compare_keys, FindStep, Item, KeyOrder, Node};
use pagedb::options::{FillPercent, Options};
use pagedb::page::Page;
use pagedb::page_size;

fn item(k: &str, v: &str) -> Item {
    Item::new(k.as_bytes().to_vec(), v.as_bytes().to_vec())
}

fn keys(items: &[Item]) -> Vec<Vec<u8>> {
    items.iter().map(|i| i.key.clone()).collect()
}

#[test]
fn test_get() {
    let page_size = page_size::get();
    assert!(page_size > 0);
    assert_eq!(page_size, 4096);
}

#[test]
fn meta_defaults_and_round_trip() {
    let m = Meta::new();
    assert_eq!(m.root, 2);
    assert_eq!(m.free_list_page_num, 1);
    let m = Meta { root: 0x0102030405060708, free_list_page_num: u64::MAX };
    let mut buf = vec![0xaau8; 32];
    m.serialize(&mut buf);
    assert_eq!(&buf[0..8], &[8, 7, 6, 5, 4, 3, 2, 1]);
    assert_eq!(&buf[16..], &[0xaa; 16]);
    assert_eq!(Meta::deserialize(&buf), Ok(m));
}

#[test]
fn meta_short_buffer_is_format_error() {
    assert_eq!(Meta::deserialize(&vec![0u8; 15]), Err(DbError::Format));
}

#[test]
fn allocate_release_reuse() {
    let mut fl = FreeList::new();
    assert_eq!(fl.get_next_page(), 1);
    assert_eq!(fl.get_next_page(), 2);
    assert_eq!(fl.get_next_page(), 3);
    fl.release_page(2);
    assert_eq!(fl.get_next_page(), 2);
    assert_eq!(fl.get_next_page(), 4);
}

#[test]
fn released_pages_come_back_last_first() {
    let mut fl = FreeList::new();
    for _ in 0..5 {
        fl.get_next_page();
    }
    fl.release_page(2);
    fl.release_page(4);
    assert_eq!(fl.get_next_page(), 4);
    assert_eq!(fl.get_next_page(), 2);
    assert_eq!(fl.get_next_page(), 6);
}

#[test]
fn free_list_round_trip() {
    let mut fl = FreeList::new();
    for _ in 0..7 {
        fl.get_next_page();
    }
    fl.release_page(3);
    fl.release_page(6);
    let mut buf = vec![0u8; 64];
    assert!(fl.fits_in(64));
    fl.serialize(&mut buf);
    assert_eq!(&buf[0..4], &[7, 0, 2, 0]);
    assert_eq!(&buf[4..12], &[3, 0, 0, 0, 0, 0, 0, 0]);
    let mut back = FreeList::deserialize(&buf).unwrap();
    assert_eq!(back.get_next_page(), 6);
    assert_eq!(back.get_next_page(), 3);
    assert_eq!(back.get_next_page(), 8);
}

#[test]
fn free_list_bad_buffers() {
    assert!(matches!(FreeList::deserialize(&vec![0u8; 3]), Err(DbError::Format)));
    // claims two released pages but holds room for one
    let buf = vec![1u8, 0, 2, 0, 0, 0, 0, 0, 0, 0, 0, 0];
    assert!(matches!(FreeList::deserialize(&buf), Err(DbError::Format)));
    let mut fl = FreeList::new();
    fl.release_page(1);
    assert!(!fl.fits_in(11));
    assert!(fl.fits_in(12));
}

#[test]
fn leaf_round_trip() {
    let mut node = Node::new();
    node.add_item(item("Key1", "Val1"), 0);
    node.add_item(item("Key9", "Val9"), 1);
    let mut buf = vec![0u8; 4096];
    assert_eq!(node.serialize(&mut buf), Ok(()));
    assert_eq!(buf[0], 0);
    assert_eq!(&buf[1..3], &[2, 0]);
    // the first cell sits at the very end of the page
    assert_eq!(&buf[4096 - 10..], &[4, b'K', b'e', b'y', b'1', 4, b'V', b'a', b'l', b'1']);
    assert_eq!(&buf[3..5], &(4096u16 - 10).to_le_bytes());
    let mut back = Node::new();
    assert_eq!(back.deserialize(&buf), Ok(()));
    assert!(back.is_leaf());
    assert_eq!(back.children.len(), 0);
    assert_eq!(keys(&back.items), vec![b"Key1".to_vec(), b"Key9".to_vec()]);
    assert_eq!(back.items[0].value, b"Val1".to_vec());
    assert_eq!(back.items[1].value, b"Val9".to_vec());
}

#[test]
fn internal_round_trip() {
    let node = Node::with_contents(vec![item("b", "2"), item("d", "")], vec![10, 20, 30]);
    let mut buf = vec![0u8; 128];
    assert_eq!(node.serialize(&mut buf), Ok(()));
    assert_eq!(buf[0], 1);
    assert_eq!(&buf[3..11], &10u64.to_le_bytes());
    assert_eq!(&buf[23..31], &30u64.to_le_bytes());
    let mut back = Node::new();
    back.page_num = 9;
    assert_eq!(back.deserialize(&buf), Ok(()));
    assert_eq!(back.page_num, 9);
    assert_eq!(back.children, vec![10, 20, 30]);
    assert_eq!(keys(&back.items), vec![b"b".to_vec(), b"d".to_vec()]);
    assert_eq!(back.items[0].value, b"2".to_vec());
    assert!(back.items[1].value.is_empty());
}

#[test]
fn serialize_rejects_what_the_format_cannot_hold() {
    let mut buf = vec![7u8; 4096];
    let long = Node::with_contents(vec![Item::new(vec![1u8; 256], vec![])], vec![]);
    assert_eq!(long.serialize(&mut buf), Err(DbError::Capacity));
    assert!(buf.iter().all(|b| *b == 7));
    let big = Node::with_contents(vec![Item::new(vec![1u8; 200], vec![2u8; 200])], vec![]);
    let mut small = vec![0u8; 100];
    assert_eq!(big.serialize(&mut small), Err(DbError::Capacity));
    let bad_children = Node::with_contents(vec![item("a", "b")], vec![1]);
    assert_eq!(bad_children.serialize(&mut buf), Err(DbError::Capacity));
}

#[test]
fn deserialize_rejects_bad_pages() {
    let mut n = Node::new();
    assert_eq!(n.deserialize(&vec![2u8, 0, 0, 0]), Err(DbError::Format));
    assert_eq!(n.deserialize(&vec![0u8, 0]), Err(DbError::Format));
    // one item whose offset points past the end
    assert_eq!(n.deserialize(&vec![0u8, 1, 0, 200, 0, 0]), Err(DbError::Format));
    // internal with no room for the last child
    assert_eq!(n.deserialize(&vec![1u8, 0, 0, 0, 0]), Err(DbError::Format));
    assert_eq!(n.deserialize(&vec![0u8, 0, 0]), Ok(()));
    assert!(n.items.is_empty());
}

#[test]
fn node_sizes() {
    let mut node = Node::new();
    node.add_item(item("ab", "cde"), 0);
    node.add_item(item("x", ""), 1);
    assert_eq!(node.item_size(0), 2 + 3 + 8);
    assert_eq!(node.items[1].size(), 1 + 8);
    assert_eq!(node.node_size(), 3 + 13 + 9 + 8);
    assert_eq!(node.add_item(item("aa", "v"), 0), 0);
    assert_eq!(keys(&node.items), vec![b"aa".to_vec(), b"ab".to_vec(), b"x".to_vec()]);
}

#[test]
fn key_order_is_bytewise() {
    assert_eq!(compare_keys(&b"abc".to_vec(), &b"abd".to_vec()), KeyOrder::Less);
    assert_eq!(compare_keys(&b"ab".to_vec(), &b"abc".to_vec()), KeyOrder::Less);
    assert_eq!(compare_keys(&b"b".to_vec(), &b"abc".to_vec()), KeyOrder::Greater);
    assert_eq!(compare_keys(&b"".to_vec(), &b"".to_vec()), KeyOrder::Equal);
    assert_eq!(compare_keys(&vec![0xff], &vec![0x01, 0x02]), KeyOrder::Greater);
}

#[test]
fn find_in_one_node() {
    let node = Node::with_contents(vec![item("b", "1"), item("d", "2"), item("f", "3")], vec![]);
    assert_eq!(node.find_key_in_node(&b"d".to_vec()), (true, 1));
    assert_eq!(node.find_key_in_node(&b"c".to_vec()), (false, 1));
    assert_eq!(node.find_key_in_node(&b"g".to_vec()), (false, 3));
    assert_eq!(node.find_step(&b"f".to_vec()), FindStep::Found(2));
    assert_eq!(node.find_step(&b"a".to_vec()), FindStep::NotFound);
    let inner = Node::with_contents(vec![item("m", "")], vec![5, 6]);
    assert_eq!(inner.find_step(&b"a".to_vec()), FindStep::Descend(5));
    assert_eq!(inner.find_step(&b"z".to_vec()), FindStep::Descend(6));
    assert_eq!(inner.find_step(&b"m".to_vec()), FindStep::Found(0));
}

fn lookup(nodes: &[Node], root: usize, key: &str) -> bool {
    let key = key.as_bytes().to_vec();
    let mut at = root;
    loop {
        match nodes[at].find_step(&key) {
            FindStep::Found(_) => return true,
            FindStep::NotFound => return false,
            FindStep::Descend(p) => at = p as usize,
        }
    }
}

#[test]
fn lookup_through_a_tree() {
    // page 0: root, pages 1..=3: leaves
    let nodes = vec![
        Node::with_contents(vec![item("d", ""), item("h", "")], vec![1, 2, 3]),
        Node::with_contents(vec![item("a", ""), item("b", "")], vec![]),
        Node::with_contents(vec![item("e", ""), item("g", "")], vec![]),
        Node::with_contents(vec![item("k", "")], vec![]),
    ];
    for k in ["a", "b", "d", "e", "g", "h", "k"] {
        assert!(lookup(&nodes, 0, k), "{}", k);
    }
    for k in ["", "c", "f", "i", "z", "aa"] {
        assert!(!lookup(&nodes, 0, k), "{}", k);
    }
}

fn options(page_size: usize) -> Options {
    Options::new(page_size)
}

#[test]
fn fill_bounds() {
    let o = options(100);
    assert_eq!(o.fill_percent, FillPercent::default_bounds());
    assert_eq!(o.fill_percent.min_fill_percent, 50);
    assert_eq!(o.fill_percent.max_fill_percent, 95);
    // node size 3 + 8 + items
    let n = Node::with_contents(vec![Item::new(vec![1u8; 40], vec![1u8; 36])], vec![]);
    assert_eq!(n.node_size(), 95);
    assert!(!o.is_over_populated(&n));
    let n = Node::with_contents(vec![Item::new(vec![1u8; 40], vec![1u8; 37])], vec![]);
    assert!(o.is_over_populated(&n));
    let n = Node::with_contents(vec![Item::new(vec![1u8; 20], vec![1u8; 18])], vec![]);
    assert_eq!(n.node_size(), 57);
    assert!(!o.is_under_populated(&n));
    let n = Node::with_contents(vec![Item::new(vec![1u8; 20], vec![1u8; 10])], vec![]);
    assert!(o.is_under_populated(&n));
}

#[test]
fn split_at_the_first_balanced_index() {
    let o = options(100);
    // each item takes 10 + 8 = 18 bytes
    let items: Vec<Item> = (0u8..6).map(|i| Item::new(vec![b'a' + i; 5], vec![i; 5])).collect();
    let mut node = Node::with_contents(items, vec![]);
    assert_eq!(node.node_size(), 3 + 6 * 18 + 8);
    assert!(o.is_over_populated(&node));
    // left sizes 21, 39, 57 > 50 at index 2; right of 2 is 3 + 3*18 + 8 = 65
    let i = o.get_split_index(&node).unwrap();
    assert_eq!(i, 2);
    let (promoted, right) = node.split(i);
    assert_eq!(promoted.key, vec![b'c'; 5]);
    assert_eq!(node.items.len(), 2);
    assert_eq!(right.items.len(), 3);
    assert_eq!(right.page_num, 0);
    assert_eq!(right.items[0].key, vec![b'd'; 5]);
    assert!(!o.is_over_populated(&node));
    assert!(!o.is_over_populated(&right));
}

#[test]
fn split_internal_node_moves_children() {
    let mut node = Node::with_contents(
        vec![item("a", ""), item("b", ""), item("c", "")],
        vec![1, 2, 3, 4],
    );
    let (promoted, right) = node.split(1);
    assert_eq!(promoted.key, b"b".to_vec());
    assert_eq!(node.children, vec![1, 2]);
    assert_eq!(right.children, vec![3, 4]);
    assert_eq!(keys(&node.items), vec![b"a".to_vec()]);
    assert_eq!(keys(&right.items), vec![b"c".to_vec()]);
}

#[test]
fn no_split_index_for_a_small_node() {
    let o = options(4096);
    let node = Node::with_contents(vec![item("a", "1"), item("b", "2")], vec![]);
    assert_eq!(o.get_split_index(&node), None);
}

#[test]
fn fresh_state_and_records() {
    let dal = DataAccessLayer::new(options(4096));
    assert_eq!(dal.meta.root, 2);
    assert_eq!(dal.meta.free_list_page_num, 1);
    let meta_page = dal.meta_page().unwrap();
    assert_eq!(meta_page.page_num(), 0);
    assert_eq!(Meta::deserialize(meta_page.data()), Ok(dal.meta));
    let fl_page = dal.free_list_page().unwrap();
    assert_eq!(fl_page.page_num(), 1);
    assert_eq!(fl_page.data().len(), 4096);
    assert_eq!(&fl_page.data()[0..4], &[1, 0, 0, 0]);
    let small = DataAccessLayer::new(options(8));
    assert!(matches!(small.meta_page(), Err(DbError::Capacity)));
}

#[test]
fn write_node_assigns_a_page_once() {
    let mut dal = DataAccessLayer::new(options(4096));
    let mut node = dal.new_node(vec![item("Key1", "Val1")], vec![]);
    let page = dal.write_node(&mut node).unwrap();
    assert_eq!(node.page_num, 2);
    assert_eq!(page.page_num(), 2);
    let again = dal.write_node(&mut node).unwrap();
    assert_eq!(again.page_num(), 2);
    let back = dal.get_node(&page).unwrap();
    assert_eq!(back.page_num, 2);
    assert_eq!(keys(&back.items), vec![b"Key1".to_vec()]);
    dal.delete_node(2);
    let mut other = Node::new();
    assert_eq!(dal.write_node(&mut other).unwrap().page_num(), 2);
    let mut huge = Node::with_contents(vec![Item::new(vec![0u8; 255], vec![0u8; 255]); 9], vec![]);
    assert!(matches!(dal.write_node(&mut huge), Err(DbError::Capacity)));
    assert_eq!(huge.page_num, 0);
}

#[test]
fn empty_pages() {
    let dal = DataAccessLayer::new(options(16));
    let p = dal.allocate_empty_page();
    assert_eq!(p.page_num(), 0);
    assert_eq!(p.data(), &vec![0u8; 16]);
    let p = dal.allocate_empty_page_with_num(7);
    assert_eq!(p.page_num(), 7);
    assert_eq!(Page::initialize_raw_data(3), vec![0u8; 3]);
}

#[test]
fn page_appends_at_cursor() {
    let mut p = Page::new(3, vec![0u8; 8]);
    p.put_str("ab");
    p.put_string(String::from("cd"));
    assert_eq!(p.num, 3);
    assert_eq!(p.data(), &vec![b'a', b'b', b'c', b'd', 0, 0, 0, 0]);
    let q = Page::from_data(vec![1, 2]);
    assert_eq!(q.num, 0);
    assert_eq!(q.data(), &vec![1, 2]);
}

#[test]
fn node_fill_checks_use_the_engine_bounds() {
    let dal = DataAccessLayer::new(options(100));
    let full = Node::with_contents(vec![Item::new(vec![1u8; 50], vec![1u8; 50])], vec![]);
    assert!(full.is_over_populated(&dal));
    assert!(!full.is_under_populated(&dal));
    let empty = Node::new();
    assert!(!empty.is_over_populated(&dal));
    assert!(empty.is_under_populated(&dal));
    assert_eq!(dal.get_split_index(&full), None);
}
