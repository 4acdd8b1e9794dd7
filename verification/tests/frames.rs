use homepod_sink::airplay::audio::resampler::{
    deinterleave, extend_channels, filled_channels, first_channel_is_shortest, interleave,
    priming_chunk_count, ChunkQueue, DEFAULT_CHUNK_SIZE,
};

#[test]
fn priming_count_is_filter_over_chunk_with_floor_of_three() {
    assert_eq!(priming_chunk_count(DEFAULT_CHUNK_SIZE), 3);
    assert_eq!(priming_chunk_count(512), 3);
    assert_eq!(priming_chunk_count(128), 4);
    assert_eq!(priming_chunk_count(64), 8);
    assert_eq!(priming_chunk_count(1), 512);
}

#[test]
fn filled_channels_shape() {
    let r = filled_channels(3, 4, 7i16);
    assert_eq!(r, vec![vec![7i16; 4], vec![7i16; 4], vec![7i16; 4]]);
    assert!(filled_channels(0, 4, 1u8).is_empty());
}

#[test]
fn deinterleave_splits_frames_and_drops_partial_frame() {
    let r = deinterleave(&[1i16, 2, 3, 4, 5, 6, 7], 2);
    assert_eq!(r, vec![vec![1, 3, 5], vec![2, 4, 6]]);
    let r = deinterleave(&[1i16, 2, 3, 4, 5, 6], 3);
    assert_eq!(r, vec![vec![1, 4], vec![2, 5], vec![3, 6]]);
    let r = deinterleave(&[1i16], 2);
    assert_eq!(r, vec![Vec::<i16>::new(), Vec::new()]);
}

#[test]
fn interleave_alternates_channels() {
    let r = interleave(&[vec![1i16, 3, 5], vec![2, 4, 6]]);
    assert_eq!(r, vec![1, 2, 3, 4, 5, 6]);
    let r = interleave(&[vec![1i16, 2], vec![10, 20, 30]]);
    assert_eq!(r, vec![1, 10, 2, 20]);
    assert!(interleave::<i16>(&[]).is_empty());
    assert!(interleave(&[Vec::<i16>::new(), vec![1]]).is_empty());
}

#[test]
fn interleave_then_deinterleave_round_trips() {
    let s = vec![9i16, -1, 8, -2, 7, -3, 6];
    let chs = deinterleave(&s, 2);
    assert_eq!(interleave(&chs), s[..6].to_vec());
    let chs = vec![vec![1.5f32, 2.5], vec![-1.0, -2.0], vec![0.0, 0.25]];
    assert_eq!(deinterleave(&interleave(&chs), 3), chs);
}

#[test]
fn first_channel_is_shortest_checks_all_channels() {
    assert!(first_channel_is_shortest::<u8>(&[]));
    assert!(first_channel_is_shortest(&[vec![1u8], vec![1, 2]]));
    assert!(!first_channel_is_shortest(&[vec![1u8, 2], vec![1]]));
}

#[test]
fn extend_channels_zips_channels() {
    let mut out = vec![vec![1i16], vec![2], vec![3]];
    extend_channels(&mut out, &[vec![10, 11], vec![20]]);
    assert_eq!(out, vec![vec![1, 10, 11], vec![2, 20], vec![3]]);
}

fn drain(q: &mut ChunkQueue<u32>) -> Vec<Vec<Vec<u32>>> {
    let mut chunks = Vec::new();
    while let Some(chunk) = q.front_chunk() {
        chunks.push(chunk);
        q.drop_front_chunk();
    }
    chunks
}

#[test]
fn chunk_queue_hands_out_exact_chunks_and_keeps_remainder() {
    let mut q: ChunkQueue<u32> = ChunkQueue::new(2, 4);
    assert_eq!(q.chunk_size(), 4);
    assert_eq!(q.channel_count(), 2);
    assert!(q.push_frames(&[vec![0, 1, 2], vec![100, 101, 102]]));
    assert!(q.front_chunk().is_none());
    assert!(q.push_frames(&[vec![3, 4, 5, 6, 7, 8], vec![103, 104, 105, 106, 107, 108]]));
    let chunks = drain(&mut q);
    assert_eq!(
        chunks,
        vec![
            vec![vec![0, 1, 2, 3], vec![100, 101, 102, 103]],
            vec![vec![4, 5, 6, 7], vec![104, 105, 106, 107]],
        ]
    );
    assert_eq!(q.pending_frames(), 1);
}

#[test]
fn chunk_queue_ignores_input_without_frames() {
    let mut q: ChunkQueue<u32> = ChunkQueue::new(2, 4);
    assert!(!q.push_frames(&[]));
    assert!(!q.push_frames(&[vec![], vec![1, 2, 3, 4]]));
    assert_eq!(q.pending_frames(), 0);
}

#[test]
fn chunk_queue_ignores_extra_input_channels() {
    let mut q: ChunkQueue<u32> = ChunkQueue::new(1, 2);
    assert!(q.push_frames(&[vec![1, 2], vec![9, 9]]));
    assert_eq!(q.front_chunk(), Some(vec![vec![1, 2]]));
}

#[test]
fn chunk_queue_does_not_drop_misaligned_frames() {
    let mut q: ChunkQueue<u32> = ChunkQueue::new(2, 1024);
    let mut next = 0u32;
    let mut emitted: Vec<u32> = Vec::new();
    for _ in 0..50 {
        let frames: Vec<u32> = (next..next + 1152).collect();
        next += 1152;
        assert!(q.push_frames(&[frames.clone(), frames]));
        for chunk in drain(&mut q) {
            assert_eq!(chunk[0].len(), 1024);
            assert_eq!(chunk[0], chunk[1]);
            emitted.extend(chunk[0].iter());
        }
        assert!(q.pending_frames() < 1024);
    }
    assert_eq!(emitted.len(), 56 * 1024);
    assert_eq!(emitted, (0..56 * 1024).collect::<Vec<u32>>());
    assert_eq!(q.pending_frames(), 50 * 1152 - 56 * 1024);
}

#[test]
fn chunk_queue_split_does_not_change_chunks() {
    let frames: Vec<u32> = (0..1000).collect();
    let mut a: ChunkQueue<u32> = ChunkQueue::new(1, 64);
    let mut b: ChunkQueue<u32> = ChunkQueue::new(1, 64);
    assert!(a.push_frames(&[frames.clone()]));
    let ca = drain(&mut a);
    let mut cb = Vec::new();
    for piece in frames.chunks(37) {
        assert!(b.push_frames(&[piece.to_vec()]));
        cb.extend(drain(&mut b));
    }
    assert_eq!(ca, cb);
    assert_eq!(a.pending_frames(), b.pending_frames());
    assert_eq!(a.pending_frames(), 1000 - 15 * 64);
}

#[test]
fn chunk_queue_clear_discards_pending() {
    let mut q: ChunkQueue<u32> = ChunkQueue::new(2, 4);
    assert!(q.push_frames(&[vec![1, 2, 3], vec![4, 5, 6]]));
    q.clear();
    assert_eq!(q.pending_frames(), 0);
    assert_eq!(q.channel_count(), 2);
    assert!(q.push_frames(&[vec![7, 8, 9, 10], vec![11, 12, 13, 14]]));
    assert_eq!(q.front_chunk(), Some(vec![vec![7, 8, 9, 10], vec![11, 12, 13, 14]]));
}
