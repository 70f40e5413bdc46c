use tt_core::lines::LinesWalker;

#[test]
fn walk_forward() {
    let mut iter = LinesWalker::new("foo\nbar\nbazz");
    assert_eq!("foo", iter.next().unwrap());
    assert_eq!("bar", iter.next().unwrap());
    assert_eq!("bazz", iter.next().unwrap());
    assert!(iter.next().is_none());

    let mut iter = LinesWalker::new("foo\nbar\r\nbazz\n");
    assert_eq!("foo", iter.next().unwrap());
    assert_eq!("bar", iter.next().unwrap());
    assert_eq!("bazz", iter.next().unwrap());
    assert!(iter.next().is_none());

    let mut iter = LinesWalker::new("");
    assert!(iter.next().is_none());

    let mut iter = LinesWalker::new("\n");
    assert_eq!("", iter.next().unwrap());
    assert!(iter.next().is_none());

    let mut iter = LinesWalker::new("\r\n");
    assert_eq!("", iter.next().unwrap());
    assert!(iter.next().is_none());

    let mut iter = LinesWalker::new("foo");
    assert_eq!("foo", iter.next().unwrap());
    assert!(iter.next().is_none());

    let mut iter = LinesWalker::new("foo\n");
    assert_eq!("foo", iter.next().unwrap());
    assert!(iter.next().is_none());

    let mut iter = LinesWalker::new("foo\r\n");
    assert_eq!("foo", iter.next().unwrap());
    assert!(iter.next().is_none());
}

#[test]
fn walk_backward() {
    let mut walker = LinesWalker::new("foo\nbar\nbazz");
    walker.go_to_end();
    assert_eq!("bazz", walker.rev_next().unwrap());
    assert_eq!("bar", walker.rev_next().unwrap());
    assert_eq!("foo", walker.rev_next().unwrap());
    assert!(walker.rev_next().is_none());

    let mut walker = LinesWalker::new("foo\nbar\r\nbazz\n");
    walker.go_to_end();
    assert_eq!("bazz", walker.rev_next().unwrap());
    assert_eq!("bar", walker.rev_next().unwrap());
    assert_eq!("foo", walker.rev_next().unwrap());
    assert!(walker.rev_next().is_none());

    let mut walker = LinesWalker::new("");
    walker.go_to_end();
    assert!(walker.rev_next().is_none());

    let mut walker = LinesWalker::new("\n");
    walker.go_to_end();
    assert_eq!("", walker.rev_next().unwrap());
    assert!(walker.rev_next().is_none());

    let mut walker = LinesWalker::new("\r\n");
    walker.go_to_end();
    assert_eq!("", walker.rev_next().unwrap());
    assert!(walker.rev_next().is_none());

    let mut walker = LinesWalker::new("foo");
    walker.go_to_end();
    assert_eq!("foo", walker.rev_next().unwrap());
    assert!(walker.rev_next().is_none());

    let mut walker = LinesWalker::new("foo\n");
    walker.go_to_end();
    assert_eq!("foo", walker.rev_next().unwrap());
    assert!(walker.rev_next().is_none());

    let mut walker = LinesWalker::new("foo\r\n");
    walker.go_to_end();
    assert_eq!("foo", walker.rev_next().unwrap());
    assert!(walker.rev_next().is_none());
}

#[test]
fn walk_combined() {
    let mut walker = LinesWalker::new("foo\nbar\nbazz");
    assert_eq!("foo", walker.next().unwrap());
    assert_eq!("foo", walker.rev_next().unwrap());
    assert!(walker.rev_next().is_none());
    assert_eq!("foo", walker.next().unwrap());
    assert_eq!("bar", walker.next().unwrap());
    assert_eq!("bar", walker.rev_next().unwrap());
    assert_eq!("foo", walker.rev_next().unwrap());
    assert!(walker.rev_next().is_none());
    assert_eq!("foo", walker.next().unwrap());
    assert_eq!("bar", walker.next().unwrap());
    assert_eq!("bazz", walker.next().unwrap());
    assert_eq!("bazz", walker.rev_next().unwrap());
    assert_eq!("bar", walker.rev_next().unwrap());
    assert_eq!("bar", walker.next().unwrap());
    assert_eq!("bazz", walker.next().unwrap());
    assert!(walker.next().is_none());
    assert_eq!("bazz", walker.rev_next().unwrap());
    assert_eq!("bar", walker.rev_next().unwrap());
    assert_eq!("foo", walker.rev_next().unwrap());
    assert!(walker.rev_next().is_none());
}

#[test]
fn skip_backward() {
    let mut walker = LinesWalker::new("foo\nbar\nbazz");
    walker.go_to_end();
    assert_eq!("bar", walker.rev_skip_next(1).unwrap());
    assert!(walker.rev_skip_next(2).is_none());

    walker.go_to_end();
    assert_eq!("foo", walker.rev_skip_next(2).unwrap());
    assert_eq!("foo", walker.next().unwrap());
    assert_eq!("foo", walker.rev_skip_next(0).unwrap());
    assert!(walker.rev_skip_next(1).is_none());
}

#[test]
fn walker_read_line_counts_line_break() {
    let mut walker = LinesWalker::new("ab\r\ncd");
    let mut buf = String::new();
    assert_eq!(4, walker.read_line(&mut buf));
    assert_eq!("ab", buf);
    let mut buf = String::new();
    assert_eq!(2, walker.read_line(&mut buf));
    assert_eq!("cd", buf);
    let mut buf = String::new();
    assert_eq!(0, walker.read_line(&mut buf));
    assert_eq!("", buf);
    assert_eq!(6, walker.go_to_end());
}
