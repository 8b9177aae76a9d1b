use rugus::channel::Channel;

#[test]
fn channel_keeps_one_slot_free() {
    let mut c: Channel<u32, 4> = Channel::new();
    assert_eq!(c.capacity(), 3);
    assert!(c.is_empty());
    assert_eq!(c.try_send(1), Ok(()));
    assert_eq!(c.try_send(2), Ok(()));
    assert_eq!(c.try_send(3), Ok(()));
    assert!(c.is_full());
    assert_eq!(c.try_send(4), Err(4));
    assert_eq!(c.len(), 3);
}

#[test]
fn channel_is_fifo_across_wrap() {
    let mut c: Channel<u32, 3> = Channel::new();
    for round in 0..5u32 {
        assert_eq!(c.try_send(round * 2), Ok(()));
        assert_eq!(c.try_send(round * 2 + 1), Ok(()));
        assert_eq!(c.try_recv(), Some(round * 2));
        assert_eq!(c.try_recv(), Some(round * 2 + 1));
    }
    assert_eq!(c.try_recv(), None);
    assert!(c.is_empty());
}

#[test]
fn channel_with_fewer_than_two_slots_accepts_nothing() {
    let mut zero: Channel<u32, 0> = Channel::new();
    assert_eq!(zero.capacity(), 0);
    assert_eq!(zero.try_send(7), Err(7));
    assert_eq!(zero.try_recv(), None);
    assert_eq!(zero.len(), 0);
    assert!(zero.is_empty());
    assert!(zero.is_full());
    let mut one: Channel<u32, 1> = Channel::new();
    assert_eq!(one.capacity(), 0);
    assert_eq!(one.try_send(7), Err(7));
    assert_eq!(one.try_recv(), None);
    assert_eq!(one.len(), 0);
    assert!(one.is_full());
}

#[test]
fn channel_len_counts_an_interleaved_history() {
    let mut c: Channel<u32, 4> = Channel::new();
    let mut sent = 0usize;
    let mut got = 0usize;
    for i in 0..20u32 {
        if i % 3 == 2 {
            if c.try_recv().is_some() {
                got += 1;
            }
        } else if c.try_send(i).is_ok() {
            sent += 1;
        }
        assert_eq!(c.len(), sent - got);
        assert!(c.len() <= 3);
    }
}
