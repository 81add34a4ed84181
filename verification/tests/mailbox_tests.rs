use milim_2d::Mailbox;
use uuid::Uuid;

#[test]
fn mailbox_receives_sent_messages_in_order() {
    let (sender, mailbox) = Mailbox::<u32>::new(Uuid::now_v7());
    sender.send(1).unwrap();
    sender.send(2).unwrap();
    sender.send(3).unwrap();
    assert_eq!(mailbox.drain().collect::<Vec<_>>(), vec![1, 2, 3]);
    assert_eq!(mailbox.drain().next(), None);
}

#[test]
fn drain_yields_messages_sent_while_iterating() {
    let (sender, mailbox) = Mailbox::<u32>::new(Uuid::now_v7());
    sender.send(1).unwrap();
    let mut it = mailbox.drain();
    assert_eq!(it.next(), Some(1));
    sender.send(2).unwrap();
    assert_eq!(it.next(), Some(2));
    assert_eq!(it.next(), None);
}

#[test]
fn empty_mailbox_drains_nothing() {
    let (_sender, mailbox) = Mailbox::<String>::new(Uuid::nil());
    assert_eq!(mailbox.drain().count(), 0);
}
