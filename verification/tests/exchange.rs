use shm_ipc::exchange::{read_message, read_report, write_message, ReportError};
use shm_ipc::layout::{read_offset, shm_size, write_offset, MAX_MSG_LEN, MSG_CELL_SIZE};

fn region(n: u32) -> Vec<u8> {
    vec![0u8; shm_size(n).unwrap() as usize]
}

#[test]
fn write_places_message_at_cell_start() {
    let mut mem = region(2);
    write_message(&mut mem, 0, 1, 2, "hello");
    let off = write_offset(0, 1, 2) as usize;
    assert_eq!(&mem[off..off + 5], b"hello");
    assert!(mem[..off].iter().all(|b| *b == 0));
    assert!(mem[off + 5..].iter().all(|b| *b == 0));
}

#[test]
fn read_after_write_gives_message_back() {
    let mut mem = region(3);
    write_message(&mut mem, 2, 0, 3, "ping from 2");
    let got = read_message(&mem, 0, 2, 3);
    assert_eq!(got.len(), MAX_MSG_LEN as usize);
    assert_eq!(&got[..11], b"ping from 2");
    assert!(got[11..].iter().all(|b| *b == 0));
}

#[test]
fn write_keeps_other_cells() {
    let mut mem = region(3);
    write_message(&mut mem, 1, 2, 3, "one to two");
    let before = read_message(&mem, 2, 1, 3);
    for w in 0..3u32 {
        for r in 0..3u32 {
            if (w, r) != (1, 2) {
                write_message(&mut mem, w, r, 3, "other");
            }
        }
    }
    assert_eq!(read_message(&mem, 2, 1, 3), before);
}

#[test]
fn long_message_is_cut_to_one_message_length_on_read() {
    let mut mem = region(2);
    let msg = "x".repeat(300);
    write_message(&mut mem, 1, 0, 2, &msg);
    let got = read_message(&mem, 0, 1, 2);
    assert_eq!(got, vec![b'x'; 200]);
}

#[test]
fn message_may_fill_whole_cell() {
    let mut mem = region(2);
    let msg = "y".repeat(MSG_CELL_SIZE as usize);
    write_message(&mut mem, 0, 1, 2, &msg);
    assert_eq!(read_message(&mem, 1, 0, 2), vec![b'y'; 200]);
    assert_eq!(read_message(&mem, 0, 1, 2), vec![0u8; 200]);
}

#[test]
fn report_of_empty_region() {
    let mem = region(2);
    let report = read_report(&mem, 0, 2).unwrap();
    let mut expected = String::from("[");
    expected.push_str(&"\0".repeat(200));
    expected.push_str(",]");
    assert_eq!(report, expected);
    assert_eq!(report.len(), 2 + 201);
}

#[test]
fn report_of_single_worker_is_brackets() {
    let mem = region(1);
    assert_eq!(read_report(&mem, 0, 1), Ok(String::from("[]")));
}

#[test]
fn report_lists_peers_in_order() {
    let mut mem = region(3);
    write_message(&mut mem, 0, 1, 3, "from zero");
    write_message(&mut mem, 2, 1, 3, "from two");
    let report = read_report(&mem, 1, 3).unwrap();
    assert_eq!(report.len(), 2 + 2 * 201);
    let bytes = report.as_bytes();
    assert_eq!(bytes[0], b'[');
    assert_eq!(&bytes[1..10], b"from zero");
    assert_eq!(bytes[201], b',');
    assert_eq!(&bytes[202..210], b"from two");
    assert_eq!(bytes[402], b',');
    assert_eq!(bytes[403], b']');
}

#[test]
fn report_with_invalid_utf8_is_an_error() {
    let mut mem = region(2);
    let off = read_offset(0, 1, 2) as usize;
    mem[off] = 0xFF;
    assert_eq!(read_report(&mem, 0, 2), Err(ReportError::InvalidUtf8));
}

#[test]
fn report_with_char_cut_at_cell_end_is_an_error() {
    let mut mem = region(2);
    // A three-byte character that starts two bytes before the read ends.
    let msg = format!("{}\u{20AC}", "a".repeat(198));
    write_message(&mut mem, 1, 0, 2, &msg);
    assert_eq!(read_report(&mem, 0, 2), Err(ReportError::InvalidUtf8));
    // It is read whole where it ends inside the read.
    let mut mem = region(2);
    let msg = format!("{}\u{20AC}", "a".repeat(197));
    write_message(&mut mem, 1, 0, 2, &msg);
    let report = read_report(&mem, 0, 2).unwrap();
    assert!(report.contains('\u{20AC}'));
}

#[test]
fn report_with_no_workers_is_brackets() {
    assert_eq!(read_report(&[], 0, 0), Ok(String::from("[]")));
}
