use ropey::Rope;
use std::io::{BufReader, Cursor};
use tt_core::iter::{Item, Iter};
use tt_core::record::Record;

fn item_record_with_note(note: &str) -> Item {
    Item::Record(Record { note: note.to_string(), ..Default::default() })
}

fn item_line(line: &str) -> Item {
    Item::SomeLine(line.to_string())
}

fn rope(text: &[u8]) -> Rope {
    Rope::from_reader(BufReader::new(Cursor::new(text))).unwrap()
}

#[test]
fn iter_walk_next() {
    let mut iter = Iter::default().with_rope(rope(b"[,()] foo\n[,()] bar\n[,()] bazz"));
    assert_eq!(item_record_with_note("foo"), iter.next().unwrap());
    assert_eq!(item_record_with_note("bar"), iter.next().unwrap());
    assert_eq!(item_record_with_note("bazz"), iter.next().unwrap());
    assert!(iter.next().is_none());

    let mut iter = Iter::default().with_rope(rope(b"[,()] foo\n[,()] bar\r\n[,()] bazz\n"));
    assert_eq!(item_record_with_note("foo"), iter.next().unwrap());
    assert_eq!(item_record_with_note("bar"), iter.next().unwrap());
    assert_eq!(item_record_with_note("bazz"), iter.next().unwrap());
    assert!(iter.next().is_none());

    let mut iter = Iter::default().with_rope(rope(
        &b"test 1\n[,()] foo\n[,()] bar\r\ntest 2\n[,()] bazz\ntest 3\n"[..],
    ));
    assert_eq!(item_line("test 1"), iter.next().unwrap());
    assert_eq!(item_record_with_note("foo"), iter.next().unwrap());
    assert_eq!(item_record_with_note("bar"), iter.next().unwrap());
    assert_eq!(item_line("test 2"), iter.next().unwrap());
    assert_eq!(item_record_with_note("bazz"), iter.next().unwrap());
    assert_eq!(item_line("test 3"), iter.next().unwrap());
    assert!(iter.next().is_none());

    let mut iter = Iter::default().with_rope(rope(b""));
    assert!(iter.next().is_none());

    let mut iter = Iter::default().with_rope(rope(b"\n"));
    assert!(iter.next().unwrap().into_record().is_none());

    let mut iter = Iter::default().with_rope(rope(b"\r\n"));
    assert!(iter.next().unwrap().into_record().is_none());

    let mut iter = Iter::default().with_rope(rope(b"[,()] foo"));
    assert_eq!(item_record_with_note("foo"), iter.next().unwrap());
    assert!(iter.next().is_none());

    let mut iter = Iter::default().with_rope(rope(b"[,()] foo\n"));
    assert_eq!(item_record_with_note("foo"), iter.next().unwrap());
    assert!(iter.next().is_none());

    let mut iter = Iter::default().with_rope(rope(b"[,()] foo\r\n"));
    assert_eq!(item_record_with_note("foo"), iter.next().unwrap());
    assert!(iter.next().is_none());
}

#[test]
fn iter_walk_forward() {
    let mut iter = Iter::default().with_rope(rope(b"[,()] foo\n[,()] bar\n[,()] bazz"));
    assert_eq!(item_record_with_note("foo"), iter.forward(1).get().unwrap());
    assert_eq!(item_record_with_note("bazz"), iter.forward(2).get().unwrap());
    assert!(iter.forward(1).get().is_none());
    iter.go_to_start();
    iter.forward(1);
    assert_eq!(item_record_with_note("bar"), iter.next().unwrap());
    assert_eq!(item_record_with_note("bazz"), iter.forward(1).get().unwrap());
    iter.go_to_start();
    assert_eq!(item_record_with_note("bar"), iter.forward(2).get().unwrap());
    assert_eq!(item_record_with_note("bazz"), iter.next().unwrap());
    iter.go_to_start();
    assert_eq!(item_record_with_note("bazz"), iter.forward(3).get().unwrap());
    assert_eq!(item_record_with_note("bazz"), iter.forward(0).get().unwrap());
    assert!(iter.forward(1).get().is_none());

    let mut iter = Iter::default().with_rope(rope(b""));
    assert!(iter.forward(0).get().is_none());
    assert!(iter.forward(1).get().is_none());

    let mut iter = Iter::default().with_rope(rope(b"\n"));
    assert!(iter.forward(0).get().is_none());
    assert!(iter.forward(1).get().unwrap().into_record().is_none());

    let mut iter = Iter::default().with_rope(rope(b"\r\n"));
    assert!(iter.forward(0).get().is_none());
    assert!(iter.forward(1).get().unwrap().into_record().is_none());

    let mut iter = Iter::default().with_rope(rope(b"[,()] foo"));
    assert!(iter.forward(0).get().is_none());
    assert_eq!(item_record_with_note("foo"), iter.forward(1).get().unwrap());
    assert!(iter.forward(1).get().is_none());

    let mut iter = Iter::default().with_rope(rope(b"[,()] foo\n"));
    assert!(iter.forward(0).get().is_none());
    assert_eq!(item_record_with_note("foo"), iter.forward(1).get().unwrap());
    assert!(iter.forward(1).get().is_none());

    let mut iter = Iter::default().with_rope(rope(b"[,()] foo\r\n"));
    assert!(iter.forward(0).get().is_none());
    assert_eq!(item_record_with_note("foo"), iter.forward(1).get().unwrap());
    assert!(iter.forward(1).get().is_none());
}

#[test]
fn iter_walk_forward_large() {
    let mut text = String::new();
    for i in 0..100 {
        text += &format!("[,()] foo {}\n", i);
    }
    let mut iter = Iter::default().with_rope(rope(text.as_bytes()));
    for i in 0..100 {
        let item = iter.forward(1).get().expect(&format!("iteration: {}", i));
        assert_eq!(item_record_with_note(&format!("foo {}", i)), item, "iteration: {}", i);
    }
    assert!(iter.forward(1).get().is_none());
}

#[test]
fn iter_walk_backward() {
    let mut iter = Iter::default().with_rope(rope(b"[,()] foo\n[,()] bar\n[,()] bazz"));
    iter.go_to_end();
    assert!(iter.backward(0).get().is_none());
    assert_eq!(item_record_with_note("bazz"), iter.backward(1).get().unwrap());
    iter.go_to_end();
    assert_eq!(item_record_with_note("bar"), iter.backward(2).get().unwrap());
    assert!(iter.backward(2).get().is_none());
    assert_eq!(item_record_with_note("foo"), iter.next().unwrap());
    iter.go_to_end();
    assert_eq!(item_record_with_note("bar"), iter.backward(2).get().unwrap());
    assert_eq!(item_record_with_note("foo"), iter.backward(1).get().unwrap());
    iter.go_to_end();
    assert_eq!(item_record_with_note("foo"), iter.backward(3).get().unwrap());
    assert_eq!(item_record_with_note("bar"), iter.next().unwrap());
    assert_eq!(item_record_with_note("bar"), iter.backward(0).get().unwrap());
    assert_eq!(item_record_with_note("foo"), iter.backward(1).get().unwrap());
    assert!(iter.backward(1).get().is_none());

    let mut iter = Iter::default().with_rope(rope(b""));
    iter.go_to_end();
    assert!(iter.backward(0).get().is_none());
    assert!(iter.backward(1).get().is_none());

    let mut iter = Iter::default().with_rope(rope(b"\n"));
    iter.go_to_end();
    assert!(iter.backward(0).get().is_none());
    assert!(iter.backward(1).get().unwrap().into_record().is_none());

    let mut iter = Iter::default().with_rope(rope(b"\r\n"));
    iter.go_to_end();
    assert!(iter.backward(0).get().is_none());
    assert!(iter.backward(1).get().unwrap().into_record().is_none());

    let mut iter = Iter::default().with_rope(rope(b"[,()] foo"));
    iter.go_to_end();
    assert!(iter.backward(0).get().is_none());
    assert_eq!(item_record_with_note("foo"), iter.backward(1).get().unwrap());
    assert!(iter.backward(1).get().is_none());

    let mut iter = Iter::default().with_rope(rope(b"[,()] foo\n"));
    iter.go_to_end();
    assert!(iter.backward(0).get().is_none());
    assert_eq!(item_record_with_note("foo"), iter.backward(1).get().unwrap());
    assert!(iter.backward(1).get().is_none());

    let mut iter = Iter::default().with_rope(rope(b"[,()] foo\r\n"));
    iter.go_to_end();
    assert!(iter.backward(0).get().is_none());
    assert_eq!(item_record_with_note("foo"), iter.backward(1).get().unwrap());
    assert!(iter.backward(1).get().is_none());
}

#[test]
fn iter_walk_backward_large() {
    let mut text = String::new();
    for i in 0..100 {
        text += &format!("[,()] foo {}\n", i);
    }
    let mut iter = Iter::default().with_rope(rope(text.as_bytes()));
    iter.go_to_end();
    for i in (0..100).rev() {
        let item = iter.backward(1).get().expect(&format!("iteration: {}", i));
        assert_eq!(item_record_with_note(&format!("foo {}", i)), item, "iteration: {}", i);
    }
    assert!(iter.backward(1).get().is_none());
}

#[test]
fn iter_walk_combined() {
    let mut iter = Iter::default().with_rope(rope(b"[,()] foo\nbar\n[,()] bazz"));
    assert_eq!(item_record_with_note("foo"), iter.forward(1).get().unwrap());
    assert!(iter.backward(1).get().is_none());
    assert_eq!(item_line("bar"), iter.forward(2).get().unwrap());
    assert_eq!(item_record_with_note("foo"), iter.backward(1).get().unwrap());
    assert!(iter.backward(1).get().is_none());
    assert_eq!(item_record_with_note("bazz"), iter.forward(3).get().unwrap());
    assert_eq!(item_record_with_note("foo"), iter.backward(2).get().unwrap());
    assert_eq!(item_line("bar"), iter.forward(1).get().unwrap());
    assert!(iter.forward(2).get().is_none());
    assert_eq!(item_record_with_note("bazz"), iter.backward(1).get().unwrap());
    assert!(iter.backward(3).get().is_none());
}

#[test]
fn iter_update() {
    let mut iter = Iter::default().with_rope(rope(b"[,()] foo\n[,()] bar\n[,()] bazz"));
    assert_eq!(item_record_with_note("foo"), iter.next().unwrap());
    assert_eq!(item_record_with_note("bar"), iter.next().unwrap());
    iter.update(&item_record_with_note("test"));
    assert_eq!(item_record_with_note("bazz"), iter.next().unwrap());
    assert!(iter.next().is_none());
    assert_eq!(item_record_with_note("test"), iter.backward(2).get().unwrap());

    iter.go_to_start();
    assert_eq!(item_record_with_note("foo"), iter.next().unwrap());
    iter.update(&item_record_with_note("note"));
    assert_eq!(item_record_with_note("bazz"), iter.forward(2).get().unwrap());
    iter.update(&item_record_with_note("some"));

    iter.go_to_start();
    assert_eq!(item_record_with_note("note"), iter.next().unwrap());
    assert_eq!(item_record_with_note("test"), iter.next().unwrap());
    assert_eq!(item_record_with_note("some"), iter.next().unwrap());
    assert!(iter.next().is_none());
}

#[test]
fn iter_remove() {
    let mut iter = Iter::default().with_rope(rope(b"[,()] foo\n[,()] bar\n[,()] bazz"));
    assert_eq!(item_record_with_note("foo"), iter.next().unwrap());
    assert_eq!(item_record_with_note("bar"), iter.next().unwrap());
    iter.remove();
    assert!(iter.next().is_none());
    assert_eq!(item_record_with_note("bazz"), iter.backward(1).get().unwrap());
    assert_eq!(item_record_with_note("foo"), iter.backward(1).get().unwrap());
    assert!(iter.backward(1).get().is_none());

    iter.go_to_start();
    assert_eq!(item_record_with_note("foo"), iter.next().unwrap());
    iter.remove();
    assert!(iter.next().is_none());

    iter.go_to_start();
    assert_eq!(item_record_with_note("bazz"), iter.next().unwrap());
    iter.remove();

    iter.go_to_start();
    assert!(iter.next().is_none());
}

#[test]
fn iter_counts_lines_and_offsets() {
    let iter = Iter::default().with_rope(rope(b"a\nb\n"));
    assert_eq!(2, iter.lines_count());
    let iter = Iter::default().with_rope(rope(b"a\nb"));
    assert_eq!(2, iter.lines_count());
    let iter = Iter::default().with_rope(rope(b"a\n\n"));
    assert_eq!(2, iter.lines_count());
    let iter = Iter::default().with_rope(rope(b""));
    assert_eq!(0, iter.lines_count());
    let mut iter = Iter::new(rope(b"ab\ncd\n"), Some(1));
    assert_eq!(Some(3), iter.remove());
    assert_eq!("ab\n", iter.rope().to_string());
    let mut iter = Iter::new(rope(b"ab\ncd\n"), None);
    assert_eq!(None, iter.remove());
    assert_eq!(None, iter.update(&item_line("x")));
    assert_eq!("ab\ncd\n", iter.rope().to_string());
}

#[test]
fn iter_items_text() {
    assert_eq!("[,  ()] foo", item_record_with_note("foo").to_string());
    assert_eq!("any text", item_line("any text").to_string());
    assert_eq!(None, item_line("x").record());
    assert_eq!(Some(&Record::default()), Item::Record(Record::default()).record());
}
