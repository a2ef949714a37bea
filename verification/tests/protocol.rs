use mem_attest::hash::{to_hex, Blake3Hasher};
use mem_attest::leaves::{generate_leaves_from_file, generate_leaves_from_memory, StructuralError};
use mem_attest::merkle::{build_path, build_root};
use mem_attest::protocol::{
    advance, begin_round, build_commit, build_reveal, classify_send, committed_index,
    committed_leaves,
    continues_after, decode_leaf, hash_text, judge_reveal, prepare_round, verify_commit, verify_reveal, verify_reveal_at,
    verify_reveal_with_path, CommitError, CommitMessage, ProtocolError, RevealMessage, RoundAction,
    RoundEvent, RoundState, SendOutcome, MEMORY_DUMP_INTERVAL_SECONDS, PATH_LENGTH, REVEAL_OFFSETS,
};

fn image(len: usize) -> Vec<u8> {
    (0..len).map(|i| (i * 7 % 253) as u8).collect()
}

fn leaf(i: usize) -> [u8; 32] {
    Blake3Hasher::hash(&[i as u8, (i >> 8) as u8])
}

fn leaves(count: usize) -> Vec<[u8; 32]> {
    (0..count).map(leaf).collect()
}

#[test]
fn constants_of_the_protocol() {
    assert_eq!(PATH_LENGTH, 64);
    assert_eq!(MEMORY_DUMP_INTERVAL_SECONDS, 5);
    assert_eq!(REVEAL_OFFSETS, [0x53, 0x54, 0x55]);
}

#[test]
fn round_over_a_stored_image() {
    let mem = image(3 * 2048 + 5);
    let (commit, reveal) = prepare_round(&mem).unwrap();
    let leaves = generate_leaves_from_memory(&mem).unwrap();
    assert_eq!(verify_commit(&commit), Ok(leaves.clone()));
    assert_eq!(commit.root, hash_text(&build_root(&leaves).unwrap()));
    assert_eq!(reveal.segment, mem[..2048].to_vec());
    assert_eq!(reveal.indices, [0x53, 0x54, 0x55]);
    assert_eq!(reveal.values, [mem[0x53], mem[0x54], mem[0x55]]);
    assert_eq!(verify_reveal(&reveal), Ok(()));
    assert_eq!(verify_reveal_at(&reveal, &leaves, 0, &build_root(&leaves).unwrap()), Ok(()));
    assert_eq!(prepare_round(&mem[..2047]).err(), Some(StructuralError::NoContent));
    assert_eq!(prepare_round(&[]).err(), Some(StructuralError::NoContent));
    assert!(prepare_round(&mem[..2048]).is_ok());
}

#[test]
fn hash_text_has_the_hex_mark() {
    assert_eq!(
        hash_text(&[0xab; 32]),
        "0xabababababababababababababababababababababababababababababababab"
    );
    assert_eq!(hash_text(&leaf(3)), format!("0x{}", hex::encode(leaf(3))));
}

#[test]
fn commit_states_the_root_and_lists_the_leaves() {
    let l = leaves(4);
    let commit = build_commit(&l).unwrap();
    assert_eq!(commit.root, format!("0x{}", hex::encode(build_root(&l).unwrap())));
    assert_eq!(commit.path.len(), 1);
    let texts: Vec<String> = l.iter().map(|leaf| format!("0x{}", hex::encode(leaf))).collect();
    assert_eq!(commit.path[0], texts);
}

#[test]
fn commit_batches_hold_sixty_four_leaves() {
    for (count, sizes) in [
        (1usize, vec![1usize]),
        (32, vec![32]),
        (64, vec![64]),
        (128, vec![64, 64]),
        (256, vec![64, 64, 64, 64]),
    ] {
        let l = leaves(count);
        let commit = build_commit(&l).unwrap();
        let found: Vec<usize> = commit.path.iter().map(|batch| batch.len()).collect();
        assert_eq!(found, sizes);
        let listed: Vec<String> = commit.path.concat();
        let texts: Vec<String> = l.iter().map(hash_text).collect();
        assert_eq!(listed, texts);
    }
}

#[test]
fn invalid_leaf_sequence_never_becomes_a_commit() {
    for count in [0usize, 3, 65, 100] {
        assert_eq!(build_commit(&leaves(count)).err(), Some(StructuralError::InvalidLeafCount));
    }
}

#[test]
fn reveal_states_hash_and_values() {
    let segment = image(2048);
    let reveal = build_reveal(&segment, [0x53, 0x54, 0x55]).unwrap();
    assert_eq!(reveal.hash, hex::encode(blake3::hash(&segment).as_bytes()));
    assert_eq!(reveal.segment, segment);
    assert_eq!(reveal.indices, [0x53, 0x54, 0x55]);
    assert_eq!(reveal.values, [segment[0x53], segment[0x54], segment[0x55]]);
    assert_eq!(verify_reveal(&reveal), Ok(()));
}

#[test]
fn reveal_needs_offsets_inside_the_segment() {
    let segment = image(0x55);
    assert!(build_reveal(&segment, [0x53, 0x54, 0x55]).is_none());
    assert!(build_reveal(&segment, [0x55, 0, 0]).is_none());
    assert!(build_reveal(&segment, [0, 0xff, 0]).is_none());
    assert!(build_reveal(&segment, [0x52, 0x53, 0x54]).is_some());
    assert!(build_reveal(&[], [0, 0, 0]).is_none());
    let repeated = build_reveal(&segment, [7, 7, 7]).unwrap();
    assert_eq!(repeated.values, [segment[7]; 3]);
    assert_eq!(verify_reveal(&repeated), Ok(()));
}

#[test]
fn true_reveal_is_accepted() {
    let segment = image(300);
    let reveal = RevealMessage {
        hash: to_hex(&Blake3Hasher::hash(&segment)),
        segment: segment.clone(),
        indices: [0, 150, 255],
        values: [segment[0], segment[150], segment[255]],
    };
    assert_eq!(verify_reveal(&reveal), Ok(()));
}

#[test]
fn any_changed_value_is_rejected() {
    let segment = image(2048);
    for k in 0..3 {
        for delta in [1u8, 0x80, 0xff] {
            let mut reveal = build_reveal(&segment, [0x53, 0x54, 0x55]).unwrap();
            reveal.values[k] = reveal.values[k].wrapping_add(delta);
            assert_eq!(verify_reveal(&reveal), Err(ProtocolError::ValueMismatch));
        }
    }
}

#[test]
fn changed_hash_is_rejected() {
    let segment = image(2048);
    let mut reveal = build_reveal(&segment, [1, 2, 3]).unwrap();
    reveal.hash = hex::encode(blake3::hash(&segment[1..]).as_bytes());
    assert_eq!(verify_reveal(&reveal), Err(ProtocolError::HashMismatch));
    let mut reveal = build_reveal(&segment, [1, 2, 3]).unwrap();
    reveal.hash = reveal.hash.to_uppercase();
    assert_eq!(verify_reveal(&reveal), Err(ProtocolError::HashMismatch));
    let mut reveal = build_reveal(&segment, [1, 2, 3]).unwrap();
    reveal.hash.push('0');
    assert_eq!(verify_reveal(&reveal), Err(ProtocolError::HashMismatch));
    let mut reveal = build_reveal(&segment, [1, 2, 3]).unwrap();
    reveal.hash = String::new();
    assert_eq!(verify_reveal(&reveal), Err(ProtocolError::HashMismatch));
}

#[test]
fn changed_segment_is_rejected() {
    let segment = image(2048);
    let mut reveal = build_reveal(&segment, [1, 2, 3]).unwrap();
    reveal.segment[1000] ^= 1;
    assert_eq!(verify_reveal(&reveal), Err(ProtocolError::HashMismatch));
    let mut reveal = build_reveal(&segment, [1, 2, 3]).unwrap();
    reveal.segment.pop();
    assert_eq!(verify_reveal(&reveal), Err(ProtocolError::HashMismatch));
}

#[test]
fn offset_outside_the_segment_is_rejected() {
    let segment = image(100);
    let mut reveal = build_reveal(&segment, [1, 2, 3]).unwrap();
    reveal.indices[2] = 100;
    assert_eq!(verify_reveal(&reveal), Err(ProtocolError::ValueMismatch));
    reveal.values[2] = 0;
    assert_eq!(verify_reveal(&reveal), Err(ProtocolError::ValueMismatch));
}

#[test]
fn hash_is_checked_before_the_values() {
    let segment = image(100);
    let mut reveal = build_reveal(&segment, [1, 2, 3]).unwrap();
    reveal.values[0] ^= 1;
    reveal.hash = "00".repeat(32);
    assert_eq!(verify_reveal(&reveal), Err(ProtocolError::HashMismatch));
}

#[test]
fn commit_then_reveal_of_the_first_block() {
    let mem = image(4096);
    let (leaves, segment) = generate_leaves_from_file(&mem).unwrap();
    assert_eq!(leaves.len(), 2);
    let commit = build_commit(&leaves).unwrap();
    let committed = verify_commit(&commit).unwrap();
    assert_eq!(committed, leaves);
    let root = build_root(&committed).unwrap();

    let reveal = build_reveal(&segment, [0x53, 0x54, 0x55]).unwrap();
    assert_eq!(verify_reveal(&reveal), Ok(()));
    assert_eq!(verify_reveal_at(&reveal, &committed, 0, &root), Ok(()));
    let path = build_path(&leaves, 0).unwrap();
    assert_eq!(verify_reveal_with_path(&reveal, 0, 2, &path, &root), Ok(()));
    assert_eq!(committed_index(&committed, &Blake3Hasher::hash(&reveal.segment)), Some(0));

    let mut wrong = build_reveal(&segment, [0x53, 0x54, 0x55]).unwrap();
    wrong.values[1] = wrong.values[1].wrapping_add(1);
    assert_eq!(verify_reveal(&wrong), Err(ProtocolError::ValueMismatch));
    assert_eq!(verify_reveal_at(&wrong, &committed, 0, &root), Err(ProtocolError::ValueMismatch));
    assert_eq!(
        verify_reveal_with_path(&wrong, 0, 2, &path, &root),
        Err(ProtocolError::ValueMismatch)
    );
}

#[test]
fn reveal_has_to_stand_where_it_is_claimed() {
    let mem = image(4 * 2048);
    let leaves = generate_leaves_from_memory(&mem).unwrap();
    let root = build_root(&leaves).unwrap();
    let reveal = build_reveal(&mem[2048..4096], [1, 2, 3]).unwrap();
    assert_eq!(verify_reveal_at(&reveal, &leaves, 1, &root), Ok(()));
    for index in [0usize, 2, 3, 4, 100] {
        assert_eq!(
            verify_reveal_at(&reveal, &leaves, index, &root),
            Err(ProtocolError::NotCommitted)
        );
    }
    let mut other_root = root;
    other_root[5] ^= 1;
    assert_eq!(
        verify_reveal_at(&reveal, &leaves, 1, &other_root),
        Err(ProtocolError::NotCommitted)
    );
    assert_eq!(
        verify_reveal_at(&reveal, &leaves[..3].to_vec(), 1, &root),
        Err(ProtocolError::NotCommitted)
    );
}

#[test]
fn segment_that_was_never_committed_is_rejected() {
    let mem = image(4 * 2048);
    let leaves = generate_leaves_from_memory(&mem).unwrap();
    let root = build_root(&leaves).unwrap();
    let stranger = build_reveal(&vec![0xeeu8; 2048], [1, 2, 3]).unwrap();
    assert_eq!(verify_reveal(&stranger), Ok(()));
    for index in 0..4 {
        assert_eq!(
            verify_reveal_at(&stranger, &leaves, index, &root),
            Err(ProtocolError::NotCommitted)
        );
        let path = build_path(&leaves, index).unwrap();
        assert_eq!(
            verify_reveal_with_path(&stranger, index, 4, &path, &root),
            Err(ProtocolError::NotCommitted)
        );
    }
    assert_eq!(committed_index(&leaves, &Blake3Hasher::hash(&stranger.segment)), None);
}

#[test]
fn reveal_with_a_corrupted_path_is_rejected() {
    let mem = image(8 * 2048);
    let leaves = generate_leaves_from_memory(&mem).unwrap();
    let root = build_root(&leaves).unwrap();
    let reveal = build_reveal(&mem[5 * 2048..6 * 2048], [9, 8, 7]).unwrap();
    let path = build_path(&leaves, 5).unwrap();
    assert_eq!(verify_reveal_with_path(&reveal, 5, 8, &path, &root), Ok(()));
    for index in [0usize, 1, 4, 6, 7, 8, 13] {
        assert_eq!(
            verify_reveal_with_path(&reveal, index, 8, &path, &root),
            Err(ProtocolError::NotCommitted)
        );
    }
    for count in [0usize, 4, 7, 16] {
        assert_eq!(
            verify_reveal_with_path(&reveal, 5, count, &path, &root),
            Err(ProtocolError::NotCommitted)
        );
    }
    for level in 0..path.len() {
        let mut corrupted = path.clone();
        corrupted[level].sibling[0] ^= 0x40;
        assert_eq!(
            verify_reveal_with_path(&reveal, 5, 8, &corrupted, &root),
            Err(ProtocolError::NotCommitted)
        );
    }
}

#[test]
fn first_position_of_a_hash() {
    let mut l = leaves(8);
    l[6] = l[2];
    assert_eq!(committed_index(&l, &leaf(2)), Some(2));
    assert_eq!(committed_index(&l, &leaf(0)), Some(0));
    assert_eq!(committed_index(&l, &leaf(7)), Some(7));
    assert_eq!(committed_index(&l, &leaf(6)), None);
    assert_eq!(committed_index(&vec![], &leaf(6)), None);
}

#[test]
fn leaf_texts_are_read_back() {
    let text = hash_text(&leaf(9));
    assert_eq!(decode_leaf(&text), Some(leaf(9)));
    assert_eq!(decode_leaf(&text[2..]), Some(leaf(9)));
    assert_eq!(decode_leaf(&text.to_uppercase().replace("0X", "0x")), Some(leaf(9)));
    assert_eq!(decode_leaf(&text[..64]), None);
    assert_eq!(decode_leaf(&text[..65]), None);
    assert_eq!(decode_leaf(&format!("{}00", text)), None);
    assert_eq!(decode_leaf(""), None);
    assert_eq!(decode_leaf(&"zz".repeat(32)), None);
}

#[test]
fn built_commits_pass_the_check() {
    for count in [1usize, 2, 64, 128] {
        let l = leaves(count);
        let commit = build_commit(&l).unwrap();
        assert_eq!(committed_leaves(&commit), Some(l.clone()));
        assert_eq!(verify_commit(&commit), Ok(l));
    }
}

#[test]
fn commit_with_a_wrong_root_is_turned_down() {
    let l = leaves(4);
    let mut commit = build_commit(&l).unwrap();
    commit.root = "0x0000".to_string();
    assert_eq!(verify_commit(&commit), Err(CommitError::RootMismatch));
    let mut commit = build_commit(&l).unwrap();
    commit.root = hash_text(&build_root(&leaves(2)).unwrap());
    assert_eq!(verify_commit(&commit), Err(CommitError::RootMismatch));
    let mut commit = build_commit(&l).unwrap();
    commit.path[0][3] = hash_text(&leaf(77));
    assert_eq!(verify_commit(&commit), Err(CommitError::RootMismatch));
    let mut commit = build_commit(&l).unwrap();
    commit.path[0].swap(0, 1);
    assert_eq!(verify_commit(&commit), Err(CommitError::RootMismatch));
}

#[test]
fn commit_with_a_bad_leaf_list_is_turned_down() {
    let l = leaves(4);
    let mut commit = build_commit(&l).unwrap();
    commit.path[0][2] = "0x12".to_string();
    assert_eq!(verify_commit(&commit), Err(CommitError::MalformedLeaf));
    assert_eq!(committed_leaves(&commit), None);
    let mut commit = build_commit(&l).unwrap();
    commit.path[0][0].push('g');
    assert_eq!(verify_commit(&commit), Err(CommitError::MalformedLeaf));
    let mut commit = build_commit(&l).unwrap();
    commit.path[0].pop();
    assert_eq!(verify_commit(&commit), Err(CommitError::InvalidLeafCount));
    let commit = CommitMessage { root: hash_text(&leaf(0)), path: vec![] };
    assert_eq!(verify_commit(&commit), Err(CommitError::InvalidLeafCount));
    let commit = CommitMessage { root: hash_text(&leaf(0)), path: vec![vec![], vec![]] };
    assert_eq!(verify_commit(&commit), Err(CommitError::InvalidLeafCount));
}

#[test]
fn batches_of_any_size_are_read() {
    let l = leaves(4);
    let texts: Vec<String> = l.iter().map(hash_text).collect();
    let commit = CommitMessage {
        root: hash_text(&build_root(&l).unwrap()),
        path: vec![vec![texts[0].clone()], vec![], texts[1..].to_vec()],
    };
    assert_eq!(verify_commit(&commit), Ok(l));
}

#[test]
fn round_runs_to_acknowledged() {
    let (state, action) = begin_round();
    assert_eq!((state, action), (RoundState::Idle, RoundAction::TakeSnapshot));
    let (state, action) = advance(state, RoundEvent::SnapshotTaken);
    assert_eq!((state, action), (RoundState::Snapshotted, RoundAction::HandCommit));
    let (state, action) = advance(state, RoundEvent::CommitHanded);
    assert_eq!((state, action), (RoundState::Committed, RoundAction::AwaitCommit));
    let (state, action) = advance(state, RoundEvent::Sent(SendOutcome::Delivered));
    assert_eq!((state, action), (RoundState::Revealed, RoundAction::AwaitReveal));
    let (state, action) = advance(state, RoundEvent::Sent(SendOutcome::Delivered));
    assert_eq!((state, action), (RoundState::Acknowledged, RoundAction::End));
    assert!(continues_after(state));
}

#[test]
fn failed_send_fails_the_round_and_stops_the_loop() {
    for state in [RoundState::Committed, RoundState::Revealed] {
        let next = advance(state, RoundEvent::Sent(SendOutcome::TransportFailed));
        assert_eq!(next, (RoundState::Failed, RoundAction::End));
        assert!(!continues_after(next.0));
    }
}

#[test]
fn rejection_ends_the_round_but_not_the_loop() {
    for state in [RoundState::Committed, RoundState::Revealed] {
        let next = advance(state, RoundEvent::Sent(SendOutcome::Rejected));
        assert_eq!(next, (RoundState::Rejected, RoundAction::End));
        assert!(continues_after(next.0));
    }
}

#[test]
fn aborted_round_sends_nothing() {
    assert_eq!(advance(RoundState::Idle, RoundEvent::SnapshotFailed), (RoundState::Idle, RoundAction::End));
    assert_eq!(
        advance(RoundState::Snapshotted, RoundEvent::CommitInvalid),
        (RoundState::Idle, RoundAction::End)
    );
    assert!(continues_after(RoundState::Idle));
}

#[test]
fn terminal_states_are_final() {
    let events = [
        RoundEvent::SnapshotTaken,
        RoundEvent::SnapshotFailed,
        RoundEvent::CommitHanded,
        RoundEvent::CommitInvalid,
        RoundEvent::Sent(SendOutcome::Delivered),
        RoundEvent::Sent(SendOutcome::Rejected),
        RoundEvent::Sent(SendOutcome::TransportFailed),
    ];
    for state in [RoundState::Acknowledged, RoundState::Rejected, RoundState::Failed] {
        for event in events {
            assert_eq!(advance(state, event), (state, RoundAction::End));
        }
    }
}

#[test]
fn events_out_of_place_change_nothing() {
    assert_eq!(
        advance(RoundState::Idle, RoundEvent::Sent(SendOutcome::Delivered)),
        (RoundState::Idle, RoundAction::End)
    );
    assert_eq!(
        advance(RoundState::Idle, RoundEvent::CommitHanded),
        (RoundState::Idle, RoundAction::End)
    );
    assert_eq!(
        advance(RoundState::Snapshotted, RoundEvent::SnapshotTaken),
        (RoundState::Snapshotted, RoundAction::End)
    );
    assert_eq!(
        advance(RoundState::Committed, RoundEvent::CommitHanded),
        (RoundState::Committed, RoundAction::End)
    );
    assert_eq!(
        advance(RoundState::Revealed, RoundEvent::SnapshotFailed),
        (RoundState::Revealed, RoundAction::End)
    );
}

#[test]
fn only_a_failed_round_stops_the_loop() {
    for state in [
        RoundState::Idle,
        RoundState::Snapshotted,
        RoundState::Committed,
        RoundState::Revealed,
        RoundState::Acknowledged,
        RoundState::Rejected,
    ] {
        assert!(continues_after(state));
    }
    assert!(!continues_after(RoundState::Failed));
}

#[test]
fn reveal_is_judged_against_the_held_commit() {
    let mem = image(4 * 2048);
    let leaves = generate_leaves_from_memory(&mem).unwrap();
    for block in 0..4 {
        let reveal = build_reveal(&mem[block * 2048..(block + 1) * 2048], [0x53, 0x54, 0x55]).unwrap();
        assert_eq!(judge_reveal(&reveal, &Some(leaves.clone())), Ok(()));
    }
    let (commit, reveal) = prepare_round(&mem).unwrap();
    let held = verify_commit(&commit).ok();
    assert_eq!(judge_reveal(&reveal, &held), Ok(()));
}

#[test]
fn reveal_is_not_committed_where_nothing_is_held() {
    let reveal = build_reveal(&image(2048), [1, 2, 3]).unwrap();
    assert_eq!(judge_reveal(&reveal, &None), Err(ProtocolError::NotCommitted));
    assert_eq!(judge_reveal(&reveal, &Some(vec![])), Err(ProtocolError::NotCommitted));
}

#[test]
fn reveal_of_a_stranger_is_not_committed() {
    let mem = image(4 * 2048);
    let leaves = generate_leaves_from_memory(&mem).unwrap();
    let stranger = build_reveal(&vec![0xeeu8; 2048], [1, 2, 3]).unwrap();
    assert_eq!(judge_reveal(&stranger, &Some(leaves)), Err(ProtocolError::NotCommitted));
}

#[test]
fn own_error_of_a_reveal_comes_first() {
    let mem = image(4 * 2048);
    let leaves = generate_leaves_from_memory(&mem).unwrap();
    let mut wrong = build_reveal(&mem[..2048], [0x53, 0x54, 0x55]).unwrap();
    wrong.values[2] = wrong.values[2].wrapping_add(1);
    assert_eq!(judge_reveal(&wrong, &Some(leaves.clone())), Err(ProtocolError::ValueMismatch));
    assert_eq!(judge_reveal(&wrong, &None), Err(ProtocolError::ValueMismatch));
    let mut wrong = build_reveal(&mem[..2048], [0x53, 0x54, 0x55]).unwrap();
    wrong.hash.replace_range(0..1, if wrong.hash.starts_with('0') { "1" } else { "0" });
    assert_eq!(judge_reveal(&wrong, &Some(leaves)), Err(ProtocolError::HashMismatch));
    assert_eq!(judge_reveal(&wrong, &None), Err(ProtocolError::HashMismatch));
}

#[test]
fn held_leaves_that_make_no_tree_commit_to_nothing() {
    let mem = image(4 * 2048);
    let leaves = generate_leaves_from_memory(&mem).unwrap();
    let reveal = build_reveal(&mem[..2048], [1, 2, 3]).unwrap();
    assert_eq!(judge_reveal(&reveal, &Some(leaves[..3].to_vec())), Err(ProtocolError::NotCommitted));
    assert_eq!(judge_reveal(&reveal, &Some(leaves[..2].to_vec())), Ok(()));
}

#[test]
fn repeated_block_is_judged_at_its_first_leaf() {
    let mut mem = image(2048);
    mem.extend(image(2048));
    mem.extend(vec![3u8; 4096]);
    let leaves = generate_leaves_from_memory(&mem).unwrap();
    assert_eq!(leaves[0], leaves[1]);
    let reveal = build_reveal(&mem[2048..4096], [1, 2, 3]).unwrap();
    assert_eq!(committed_index(&leaves, &Blake3Hasher::hash(&reveal.segment)), Some(0));
    assert_eq!(judge_reveal(&reveal, &Some(leaves)), Ok(()));
}

#[test]
fn outcome_of_a_send_is_told_from_the_status() {
    assert_eq!(classify_send(None), SendOutcome::TransportFailed);
    for code in [200u16, 201, 204, 299] {
        assert_eq!(classify_send(Some(code)), SendOutcome::Delivered);
    }
    for code in [0u16, 100, 199, 300, 404, 422, 500, u16::MAX] {
        assert_eq!(classify_send(Some(code)), SendOutcome::Rejected);
    }
}
