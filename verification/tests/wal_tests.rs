use collection::wal::{Wal, WalError};

#[test]
fn append_hands_out_consecutive_numbers() {
    let mut wal: Wal<u32> = Wal::new();
    assert_eq!(wal.append(10).unwrap(), 0);
    assert_eq!(wal.append(20).unwrap(), 1);
    assert_eq!(wal.append(30).unwrap(), 2);
    assert_eq!(wal.next_index(), 3);
    assert_eq!(wal.first_index(), 0);
    assert_eq!(wal.len(), 3);
    assert_eq!(wal.get(1), Some(&20));
    assert_eq!(wal.get(3), None);
}

#[test]
fn restore_refuses_a_gap() {
    let r: Result<Wal<u32>, WalError> = Wal::restore(vec![(4, 1), (6, 2)]);
    assert_eq!(r.err(), Some(WalError::InitWalError(String::from("entries out of sequence"))));
}

#[test]
fn restore_refuses_numbers_that_go_down() {
    let r: Result<Wal<u32>, WalError> = Wal::restore(vec![(4, 1), (3, 2)]);
    assert_eq!(r.err(), Some(WalError::InitWalError(String::from("entries out of sequence"))));
    let r: Result<Wal<u32>, WalError> = Wal::restore(vec![(u64::MAX, 1), (0, 2)]);
    assert_eq!(r.err(), Some(WalError::InitWalError(String::from("entries out of sequence"))));
}

#[test]
fn restore_keeps_numbers_and_entries() {
    let wal: Wal<u32> = Wal::restore(vec![(4, 40), (5, 50), (6, 60)]).unwrap();
    assert_eq!(wal.first_index(), 4);
    assert_eq!(wal.next_index(), 7);
    assert_eq!(wal.durable_until(), 7);
    assert_eq!(wal.get(3), None);
    assert_eq!(wal.get(4), Some(&40));
    assert_eq!(wal.get(6), Some(&60));
    assert_eq!(wal.get(7), None);
}

#[test]
fn restore_of_nothing_is_an_empty_log() {
    let wal: Wal<u32> = Wal::restore(Vec::new()).unwrap();
    assert_eq!(wal.first_index(), 0);
    assert_eq!(wal.next_index(), 0);
    assert_eq!(wal.len(), 0);
}

#[test]
fn restore_refuses_a_log_that_leaves_no_number() {
    let r: Result<Wal<u32>, WalError> = Wal::restore(vec![(u64::MAX, 1)]);
    assert_eq!(r.err(), Some(WalError::InitWalError(String::from("sequence numbers exhausted"))));
}

#[test]
fn append_continues_after_restore() {
    let mut wal: Wal<u32> = Wal::restore(vec![(4, 40), (5, 50)]).unwrap();
    assert_eq!(wal.append(60).unwrap(), 6);
    assert_eq!(wal.get(6), Some(&60));
}

#[test]
fn append_refuses_when_numbers_run_out() {
    let mut wal: Wal<u32> = Wal::restore(vec![(u64::MAX - 1, 1)]).unwrap();
    assert_eq!(wal.next_index(), u64::MAX);
    assert!(!wal.is_writable());
    assert_eq!(
        wal.append(2),
        Err(WalError::WriteWalError(String::from("sequence numbers exhausted")))
    );
    assert_eq!(wal.len(), 1);
}

#[test]
fn read_from_yields_the_tail_with_numbers() {
    let mut wal: Wal<u32> = Wal::new();
    for x in [10, 20, 30, 40] {
        wal.append(x).unwrap();
    }
    let tail = wal.read_from(2);
    assert_eq!(tail, vec![(2, &30), (3, &40)]);
    assert_eq!(wal.read_from(0).len(), 4);
    assert!(wal.read_from(4).is_empty());
    assert!(wal.read_from(100).is_empty());
}

#[test]
fn read_from_twice_yields_the_same() {
    let mut wal: Wal<u32> = Wal::new();
    for x in [10, 20, 30] {
        wal.append(x).unwrap();
    }
    assert_eq!(wal.read_from(1), wal.read_from(1));
}

#[test]
fn flush_marks_everything_durable() {
    let mut wal: Wal<u32> = Wal::new();
    wal.append(1).unwrap();
    wal.append(2).unwrap();
    assert_eq!(wal.durable_until(), 0);
    wal.flush();
    assert_eq!(wal.durable_until(), 2);
    wal.append(3).unwrap();
    assert_eq!(wal.durable_until(), 2);
}

#[test]
fn ack_gives_up_the_front_and_keeps_the_numbering() {
    let mut wal: Wal<u32> = Wal::new();
    for x in [10, 20, 30, 40] {
        wal.append(x).unwrap();
    }
    wal.ack(1);
    assert_eq!(wal.first_index(), 2);
    assert_eq!(wal.len(), 2);
    assert_eq!(wal.get(1), None);
    assert_eq!(wal.get(2), Some(&30));
    assert_eq!(wal.next_index(), 4);
    assert_eq!(wal.durable_until(), 2);
    assert_eq!(wal.append(50).unwrap(), 4);
}

#[test]
fn ack_below_the_front_changes_nothing() {
    let mut wal: Wal<u32> = Wal::restore(vec![(4, 40), (5, 50)]).unwrap();
    wal.ack(3);
    assert_eq!(wal.first_index(), 4);
    assert_eq!(wal.len(), 2);
}

#[test]
fn ack_beyond_the_end_empties_the_log() {
    let mut wal: Wal<u32> = Wal::new();
    wal.append(1).unwrap();
    wal.append(2).unwrap();
    wal.ack(100);
    assert_eq!(wal.first_index(), 2);
    assert_eq!(wal.next_index(), 2);
    assert_eq!(wal.len(), 0);
    assert_eq!(wal.append(3).unwrap(), 2);
}

#[test]
fn a_failed_log_refuses_every_entry() {
    let mut wal: Wal<u32> = Wal::new();
    wal.append(1).unwrap();
    wal.mark_failed(String::from("disk unwritable"));
    assert!(wal.has_failed());
    assert!(!wal.is_writable());
    assert_eq!(
        wal.append(2),
        Err(WalError::WriteWalError(String::from("disk unwritable")))
    );
    assert_eq!(wal.len(), 1);
    wal.mark_failed(String::from("second report"));
    assert_eq!(
        wal.append(3),
        Err(WalError::WriteWalError(String::from("disk unwritable")))
    );
}

#[test]
fn wal_error_messages() {
    assert_eq!(
        WalError::InitWalError(String::from("no directory")).message(),
        "Can't init WAL: no directory"
    );
    assert_eq!(
        WalError::WriteWalError(String::from("disk full")).message(),
        "Can't write WAL: disk full"
    );
}
