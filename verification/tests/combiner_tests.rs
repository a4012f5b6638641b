use reliudp::fragment::{Fragment, FragmentMeta};
use reliudp::fragment_combiner::FragmentCombiner;

fn frag(seq_id: u32, frag_id: u8, frag_total: u8, meta: FragmentMeta, data: Vec<u8>) -> Fragment {
    Fragment { seq_id, frag_id, frag_total, frag_meta: meta, data }
}

#[test]
fn fragment_combiner_success() {
    let fragments: Vec<Fragment> = vec![
        frag(3, 1, 2, FragmentMeta::Key, vec![0, 5]),
        frag(4, 1, 2, FragmentMeta::Key, vec![4, 0]),
        frag(7, 0, 0, FragmentMeta::Key, vec![64, 64]),
        frag(5, 1, 2, FragmentMeta::Key, vec![4, 5]),
        frag(5, 0, 2, FragmentMeta::Key, vec![1, 2, 3]),
        frag(5, 2, 2, FragmentMeta::Key, vec![6, 7, 8, 9]),
        frag(6, 1, 2, FragmentMeta::Key, vec![14, 5]),
    ];
    let mut fragment_combiner = FragmentCombiner::new();
    for fragment in fragments {
        fragment_combiner.push(fragment, 0);
    }

    let out_message = fragment_combiner.next_out_message().unwrap();
    assert_eq!(out_message.1.as_slice(), &[64, 64]);
    let out_message = fragment_combiner.next_out_message().unwrap();
    assert_eq!(out_message.1.as_slice(), &[1, 2, 3, 4, 5, 6, 7, 8, 9]);
}

#[test]
fn combiner_mismatched_totals_drop_set_without_output() {
    // two fragments of one seq_id disagreeing on frag_total: once enough
    // fragments are held, the whole set is dropped and nothing comes out
    let mut combiner = FragmentCombiner::new();
    combiner.push(frag(9, 0, 1, FragmentMeta::Key, vec![1]), 0);
    combiner.push(frag(9, 1, 1, FragmentMeta::Key, vec![2]), 0);
    // wait: this pair is consistent; now a corrupted pair under another id
    let out = combiner.next_out_message().unwrap();
    assert_eq!(out.0, 9);
    assert_eq!(out.1, vec![1, 2]);

    combiner.push(frag(10, 0, 5, FragmentMeta::Key, vec![1]), 0);
    combiner.push(frag(10, 1, 0, FragmentMeta::Key, vec![2]), 0);
    assert!(combiner.next_out_message().is_none());
    // the set is gone: a fresh consistent pair under the same id works
    combiner.push(frag(10, 0, 1, FragmentMeta::Key, vec![3]), 0);
    combiner.push(frag(10, 1, 1, FragmentMeta::Key, vec![4]), 0);
    let out = combiner.next_out_message().unwrap();
    assert_eq!(out.1, vec![3, 4]);
}

#[test]
fn combiner_completed_set_is_not_revived() {
    // a late duplicate fragment for a completed set emits nothing more
    let mut combiner = FragmentCombiner::new();
    combiner.push(frag(1, 0, 0, FragmentMeta::Key, vec![0xAB]), 0);
    let out = combiner.next_out_message().unwrap();
    assert_eq!(out.1, vec![0xAB]);
    combiner.push(frag(1, 0, 0, FragmentMeta::Key, vec![0xAB]), 1);
    assert!(combiner.next_out_message().is_none());
}

#[test]
fn combiner_acks_complete_single_fragment() {
    // a complete single-fragment set acks one byte, 0x01
    let mut combiner = FragmentCombiner::new();
    combiner.push(frag(4, 0, 0, FragmentMeta::Key, vec![1, 2]), 100);
    let acks = combiner.tick(101);
    assert_eq!(acks.len(), 1);
    let (seq_id, ack) = acks.into_iter().next().unwrap();
    assert_eq!(seq_id, 4);
    assert_eq!(ack.into_inner(), vec![0x01u8]);
}

#[test]
fn combiner_acks_partial_bitmap() {
    // fragments 0, 2, 4 of 5 held: bitmap 0b00010101
    let mut combiner = FragmentCombiner::new();
    combiner.push(frag(8, 0, 4, FragmentMeta::Key, vec![0]), 100);
    combiner.push(frag(8, 2, 4, FragmentMeta::Key, vec![2]), 100);
    combiner.push(frag(8, 4, 4, FragmentMeta::Key, vec![4]), 100);
    let acks = combiner.tick(101);
    assert_eq!(acks.len(), 1);
    let (seq_id, ack) = acks.into_iter().next().unwrap();
    assert_eq!(seq_id, 8);
    assert_eq!(ack.into_inner(), vec![0b00010101u8]);
}

#[test]
fn combiner_never_acks_forgettable() {
    // a Forgettable set produces no ack, however often ticked
    let mut combiner = FragmentCombiner::new();
    combiner.push(frag(2, 0, 2, FragmentMeta::Forgettable, vec![1]), 0);
    combiner.push(frag(2, 1, 2, FragmentMeta::Forgettable, vec![2]), 0);
    for now in [0u64, 60, 120, 500, 9_999] {
        assert!(combiner.tick(now).is_empty());
    }
}

#[test]
fn combiner_ack_pacing_and_cap() {
    // at most two acks after the last fragment, at least 50 ms apart
    let mut combiner = FragmentCombiner::new();
    combiner.push(frag(3, 0, 1, FragmentMeta::Key, vec![1]), 0);
    assert_eq!(combiner.tick(1).len(), 1);
    // too soon for a second ack
    assert_eq!(combiner.tick(20).len(), 0);
    assert_eq!(combiner.tick(51).len(), 1);
    // the cap of two acks is reached
    assert_eq!(combiner.tick(200).len(), 0);
    // a new fragment resets the count
    combiner.push(frag(3, 1, 1, FragmentMeta::Key, vec![2]), 300);
    assert_eq!(combiner.tick(301).len(), 1);
}

#[test]
fn combiner_stale_incomplete_sets_are_dropped() {
    // an incomplete Forgettable set disappears after 10 s of silence,
    // a reliable one after 60 s
    let mut combiner = FragmentCombiner::new();
    combiner.push(frag(1, 0, 1, FragmentMeta::Forgettable, vec![1]), 0);
    combiner.push(frag(2, 0, 1, FragmentMeta::Key, vec![1]), 0);
    combiner.tick(10_000);
    // the Forgettable set is gone: completing it now emits nothing
    combiner.push(frag(1, 1, 1, FragmentMeta::Forgettable, vec![2]), 10_001);
    assert!(combiner.next_out_message().is_none());
    // the reliable set is still alive before 60 s
    combiner.push(frag(2, 1, 1, FragmentMeta::Key, vec![2]), 10_001);
    let out = combiner.next_out_message().unwrap();
    assert_eq!(out.0, 2);
}
