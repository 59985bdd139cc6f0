use shm_ipc::layout::{
    peers, read_offset, shm_size, write_offset, MAX_MSG_CNT_PER_CELL, MAX_MSG_LEN,
    MSG_CELL_META_SIZE, MSG_CELL_SIZE,
};
use shm_ipc::naming::{sema_name, sema_plan, SEMA_NAME};

#[test]
fn cell_size_is_meta_plus_messages() {
    assert_eq!(MSG_CELL_META_SIZE, 8);
    assert_eq!(MAX_MSG_CNT_PER_CELL, 100);
    assert_eq!(MAX_MSG_LEN, 200);
    assert_eq!(MSG_CELL_SIZE, 20008);
}

#[test]
fn shm_size_is_one_cell_per_ordered_pair() {
    assert_eq!(shm_size(0), Some(0));
    assert_eq!(shm_size(1), Some(20008));
    assert_eq!(shm_size(2), Some(80032));
    assert_eq!(shm_size(3), Some(180072));
    assert_eq!(shm_size(463), Some(463 * 463 * 20008));
}

#[test]
fn shm_size_overflow_is_none() {
    assert_eq!(shm_size(464), None);
    assert_eq!(shm_size(70000), None);
    assert_eq!(shm_size(u32::MAX), None);
}

#[test]
fn offsets_of_a_pair() {
    assert_eq!(write_offset(0, 1, 2), 20008);
    assert_eq!(write_offset(1, 0, 2), 40016);
    assert_eq!(write_offset(1, 2, 3), 5 * 20008);
    assert_eq!(read_offset(2, 1, 3), 5 * 20008);
    assert_eq!(read_offset(0, 2, 3), 6 * 20008);
}

#[test]
fn reader_reads_where_writer_wrote() {
    for n in 1u32..6 {
        for w in 0..n {
            for r in 0..n {
                assert_eq!(write_offset(w, r, n), read_offset(r, w, n));
            }
        }
    }
}

#[test]
fn cells_are_disjoint_and_inside_region() {
    let n = 4u32;
    let size = shm_size(n).unwrap();
    let mut starts = Vec::new();
    for w in 0..n {
        for r in 0..n {
            let off = write_offset(w, r, n);
            assert!(off + MSG_CELL_SIZE <= size);
            starts.push(off);
        }
    }
    starts.sort();
    for k in 1..starts.len() {
        assert!(starts[k - 1] + MSG_CELL_SIZE <= starts[k]);
    }
}

#[test]
fn peers_skip_self_in_order() {
    assert_eq!(peers(0, 1), Vec::<u32>::new());
    assert_eq!(peers(1, 4), vec![0, 2, 3]);
    assert_eq!(peers(0, 3), vec![1, 2]);
    assert_eq!(peers(2, 3), vec![0, 1]);
}

#[test]
fn sema_names() {
    assert_eq!(SEMA_NAME, "test");
    assert_eq!(sema_name(0, 1), "test-0-1");
    assert_eq!(sema_name(1, 12), "test-1-12");
    assert_eq!(sema_name(10, 0), "test-10-0");
    assert_eq!(sema_name(4294967295, 305), "test-4294967295-305");
}

#[test]
fn sema_names_of_distinct_pairs_differ() {
    let mut names = Vec::new();
    for w in 0..12u32 {
        for r in 0..12u32 {
            names.push(sema_name(w, r));
        }
    }
    let total = names.len();
    names.sort();
    names.dedup();
    assert_eq!(names.len(), total);
    assert_ne!(sema_name(1, 11), sema_name(11, 1));
}

#[test]
fn sema_plan_matrix() {
    let plan = sema_plan(3);
    assert_eq!(plan.len(), 3);
    for i in 0..3u32 {
        assert_eq!(plan[i as usize].len(), 3);
        for j in 0..3u32 {
            let e = &plan[i as usize][j as usize];
            if i == j {
                assert!(e.is_none());
            } else {
                assert_eq!(e.as_deref(), Some(format!("test-{}-{}", i, j).as_str()));
            }
        }
    }
    assert!(sema_plan(0).is_empty());
}
