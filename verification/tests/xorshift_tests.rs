use togatog_ai::pack::Pack;
use togatog_ai::xorshift::Xorshift;
use togatog_ai::zobrist_hash_table::{zobrist_board_entry, zobrist_score_entry};

#[test]
fn xorshift_next_follows_the_shift_rounds() {
    let mut rnd = Xorshift::with_seed(1);
    assert_eq!(rnd.next(), 1082269761);
    assert_eq!(rnd.next(), 1152992998833853505);
}

#[test]
fn xorshift_new_starts_from_the_default_seed() {
    let mut rnd = Xorshift::new();
    assert_eq!(rnd.next(), 12137544255864157303);
}

#[test]
fn xorshift_rand_reduces_the_next_output() {
    let mut rnd = Xorshift::with_seed(1);
    assert_eq!(rnd.rand(100), 61);
    let mut rnd = Xorshift::with_seed(1);
    assert_eq!(rnd.rand(1), 0);
}

#[test]
fn zobrist_board_entries_are_fixed() {
    assert_eq!(zobrist_board_entry(0, 0x90), 7518142022867140872);
    assert_eq!(zobrist_board_entry(3, 0x05), 4978429993402184775);
    for slot in 0..95 {
        assert_eq!(zobrist_board_entry(slot, 0), 0);
    }
}

#[test]
fn zobrist_score_entries_share_the_last_slot() {
    assert_eq!(zobrist_score_entry(100), 12495472807530636355);
    assert_eq!(zobrist_score_entry(1023), 16154616423866545185);
    assert_eq!(zobrist_score_entry(5000), 16154616423866545185);
    assert_ne!(zobrist_score_entry(0), zobrist_score_entry(1));
}

#[test]
fn pack_hash_is_a_function_of_the_cells() {
    let p = Pack::new(&[9, 5, 0, 3]);
    assert_eq!(p.hash(), 13254452905593);
    let mut q = Pack::new(&[5, 3, 9, 0]);
    q.rotates(1);
    assert_eq!(q.vec(), p.vec());
    assert_eq!(q.hash(), p.hash());
    assert_ne!(Pack::new(&[9, 5, 0, 4]).hash(), p.hash());
}

#[test]
fn pack_clear_and_default_are_empty() {
    let mut p = Pack::new(&[1, 2, 3, 4]);
    p.clear();
    assert_eq!(p.vec(), vec![0, 0, 0, 0]);
    assert_eq!(Pack::default().vec(), vec![0, 0, 0, 0]);
    assert_eq!(p, Pack::default());
}

#[test]
fn pack_set_changes_one_cell() {
    let mut p = Pack::new(&[1, 2, 3, 4]);
    p.set(2, 9);
    assert_eq!(p.vec(), vec![1, 2, 9, 4]);
    assert_eq!(p.get(2), 9);
    p.set(0, 0);
    assert_eq!(p.vec(), vec![0, 2, 9, 4]);
}

#[test]
fn pack_rotates_four_times_is_identity() {
    let mut p = Pack::new(&[1, 2, 3, 4]);
    p.rotates(4);
    assert_eq!(p.vec(), vec![1, 2, 3, 4]);
    p.rotates(0);
    assert_eq!(p.vec(), vec![1, 2, 3, 4]);
    p.rotates(2);
    assert_eq!(p.vec(), vec![4, 3, 2, 1]);
}
