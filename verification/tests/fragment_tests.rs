use reliudp::consts::{MAX_FRAGMENTS_IN_MESSAGE, MAX_FRAGMENT_MESSAGE_SIZE};
use reliudp::fragment::{build_data_from_fragments, build_fragments_from_bytes, Fragment, FragmentMeta};

#[test]
fn build_data_from_fragments_success() {
    let fragments: Vec<Fragment> = vec![
        Fragment { seq_id: 5, frag_id: 1, frag_total: 2, frag_meta: FragmentMeta::Key, data: vec![4, 5] },
        Fragment { seq_id: 5, frag_id: 0, frag_total: 2, frag_meta: FragmentMeta::Key, data: vec![1, 2, 3] },
        Fragment { seq_id: 5, frag_id: 2, frag_total: 2, frag_meta: FragmentMeta::Key, data: vec![6, 7, 8, 9] },
    ];

    let message: Vec<u8> = build_data_from_fragments(fragments).unwrap();
    assert_eq!(message.as_slice(), &[1u8, 2, 3, 4, 5, 6, 7, 8, 9]);
}

#[test]
fn build_data_from_fragments_fail_wrong_frag_id() {
    let fragments: Vec<Fragment> = vec![
        Fragment { seq_id: 5, frag_id: 0, frag_total: 1, frag_meta: FragmentMeta::Key, data: vec![1, 2, 3] },
        Fragment { seq_id: 5, frag_id: 5, frag_total: 1, frag_meta: FragmentMeta::Key, data: vec![6, 7, 8, 9] },
    ];

    let e = build_data_from_fragments(fragments).unwrap_err();
    assert_eq!(e, ());
}

#[test]
fn build_data_from_fragments_fail_duplicate_frag_id() {
    let fragments: Vec<Fragment> = vec![
        Fragment { seq_id: 5, frag_id: 0, frag_total: 1, frag_meta: FragmentMeta::Key, data: vec![1, 2, 3] },
        Fragment { seq_id: 5, frag_id: 0, frag_total: 1, frag_meta: FragmentMeta::Key, data: vec![6, 7, 8, 9] },
    ];

    let e = build_data_from_fragments(fragments).unwrap_err();
    assert_eq!(e, ());
}

#[test]
fn build_data_from_fragments_fail_mismatched_frag_total() {
    // the fragment with id 0 claims 4 fragments while only 3 exist
    let fragments: Vec<Fragment> = vec![
        Fragment { seq_id: 5, frag_id: 1, frag_total: 3, frag_meta: FragmentMeta::Key, data: vec![4, 5] },
        Fragment { seq_id: 5, frag_id: 0, frag_total: 3, frag_meta: FragmentMeta::Key, data: vec![1, 2, 3] },
        Fragment { seq_id: 5, frag_id: 2, frag_total: 3, frag_meta: FragmentMeta::Key, data: vec![6, 7, 8, 9] },
    ];

    let e = build_data_from_fragments(fragments).unwrap_err();
    assert_eq!(e, ());
}

#[test]
fn build_rebuild_data() {
    let seq_id: u32 = 1;
    let data = vec![0; 1024];
    let (mut frags_iter, _frag_total) =
        build_fragments_from_bytes(&data, seq_id, FragmentMeta::Key).unwrap();
    let mut frags: Vec<Fragment> = Vec::new();
    while let Some(f) = frags_iter.next() {
        frags.push(f.into_boxed());
    }
    let new_data = build_data_from_fragments(frags).unwrap();
    assert_eq!(new_data.len(), data.len());
}

#[test]
fn build_one_frag_from_data() {
    let seq_id: u32 = 1;
    let data = vec![0; 1024];
    let (mut frags_iter, frag_total) =
        build_fragments_from_bytes(&data, seq_id, FragmentMeta::KeyExpirable).unwrap();
    let frag = frags_iter.next().unwrap();
    assert!(frags_iter.next().is_none());
    assert_eq!(frag.data.len(), 1024);
    assert_eq!(frag.seq_id, seq_id);
    assert_eq!(frag.frag_id, 0);
    assert_eq!(frag.frag_meta, FragmentMeta::KeyExpirable);
    assert_eq!(frag.frag_total, 0);
    assert_eq!(frag_total, 0);
}

#[test]
fn build_multiple_frags_from_data() {
    let seq_id: u32 = 1;
    let data = vec![0; 2048];
    let (mut frags_iter, frag_total) =
        build_fragments_from_bytes(&data, seq_id, FragmentMeta::KeyExpirable).unwrap();
    let frag_1 = frags_iter.next().unwrap();
    let frag_2 = frags_iter.next().unwrap();
    assert!(frags_iter.next().is_none());
    assert_eq!(frag_1.data.len(), MAX_FRAGMENT_MESSAGE_SIZE);
    assert_eq!(frag_2.data.len(), 2048 - MAX_FRAGMENT_MESSAGE_SIZE);
    assert_eq!(frag_1.seq_id, seq_id);
    assert_eq!(frag_2.seq_id, seq_id);
    assert_eq!(frag_1.frag_id, 0);
    assert_eq!(frag_2.frag_id, 1);
    assert_eq!(frag_1.frag_total, 1);
    assert_eq!(frag_2.frag_total, 1);
    assert_eq!(frag_total, 1);
}

#[test]
fn build_frags_from_data_fail() {
    let seq_id: u32 = 1;
    let data = vec![0; MAX_FRAGMENTS_IN_MESSAGE * MAX_FRAGMENT_MESSAGE_SIZE + 1];
    assert!(build_fragments_from_bytes(&data, seq_id, FragmentMeta::KeyExpirable).is_err());
}

#[test]
fn build_frags_empty_payload_fails() {
    let data: Vec<u8> = Vec::new();
    assert!(build_fragments_from_bytes(&data, 0, FragmentMeta::Key).is_err());
}

#[test]
fn oversize_final_fragment_has_one_byte() {
    // 255 full chunks and one extra byte: 256 fragments, the last one byte long
    let data = vec![7u8; 255 * MAX_FRAGMENT_MESSAGE_SIZE + 1];
    let (mut frags_iter, frag_total) =
        build_fragments_from_bytes(&data, 9, FragmentMeta::Key).unwrap();
    assert_eq!(frag_total, 255);
    let mut last = None;
    let mut count = 0usize;
    while let Some(f) = frags_iter.next() {
        count += 1;
        last = Some(f);
    }
    assert_eq!(count, 256);
    let last = last.unwrap();
    assert_eq!(last.frag_id, 255);
    assert_eq!(last.data.len(), 1);
}

#[test]
fn largest_allowed_payload_fragments() {
    // exactly 256 full chunks: the largest payload that still fits
    let data = vec![1u8; MAX_FRAGMENTS_IN_MESSAGE * MAX_FRAGMENT_MESSAGE_SIZE];
    let (mut frags_iter, frag_total) =
        build_fragments_from_bytes(&data, 2, FragmentMeta::Key).unwrap();
    assert_eq!(frag_total, 255);
    let mut count = 0usize;
    while let Some(f) = frags_iter.next() {
        assert_eq!(f.data.len(), MAX_FRAGMENT_MESSAGE_SIZE);
        count += 1;
    }
    assert_eq!(count, 256);
}

#[test]
fn empty_fragment_list_fails() {
    let e = build_data_from_fragments(Vec::new()).unwrap_err();
    assert_eq!(e, ());
}
