use spigot_pi::balanced_chunks_mut::BalancedChunksMut;

fn sizes_forward(len: usize, k: usize) -> Vec<usize> {
    let mut buf: Vec<u32> = (0..len as u32).collect();
    let mut chunks = BalancedChunksMut::new(&mut buf, k);
    let mut sizes = Vec::new();
    while let Some(chunk) = chunks.next() {
        sizes.push(chunk.len());
    }
    sizes
}

fn sizes_backward(len: usize, k: usize) -> Vec<usize> {
    let mut buf: Vec<u32> = (0..len as u32).collect();
    let mut chunks = BalancedChunksMut::new(&mut buf, k);
    let mut sizes = Vec::new();
    while let Some(chunk) = chunks.next_back() {
        sizes.push(chunk.len());
    }
    sizes
}

#[test]
fn ten_in_three() {
    assert_eq!(sizes_forward(10, 3), vec![4, 3, 3]);
}

#[test]
fn ten_in_four() {
    assert_eq!(sizes_forward(10, 4), vec![3, 3, 2, 2]);
}

#[test]
fn nothing_in_five() {
    assert_eq!(sizes_forward(0, 5), vec![0, 0, 0, 0, 0]);
}

#[test]
fn five_in_one() {
    assert_eq!(sizes_forward(5, 1), vec![5]);
}

#[test]
fn no_chunks_asked_for() {
    assert_eq!(sizes_forward(7, 0), Vec::<usize>::new());
    assert_eq!(sizes_backward(7, 0), Vec::<usize>::new());
    let mut buf = [1u8, 2, 3];
    let mut chunks = BalancedChunksMut::new(&mut buf, 0);
    assert_eq!(chunks.len(), 0);
    assert!(chunks.next().is_none());
    assert!(chunks.next_back().is_none());
}

#[test]
fn more_chunks_than_elements() {
    assert_eq!(sizes_forward(3, 5), vec![1, 1, 1, 0, 0]);
    assert_eq!(sizes_backward(3, 5), vec![0, 0, 1, 1, 1]);
}

#[test]
fn chunks_put_end_to_end_are_the_buffer() {
    for len in 0usize..40 {
        for k in 1usize..9 {
            let whole: Vec<u32> = (0..len as u32).map(|x| x * 7 + 1).collect();
            let mut buf = whole.clone();
            let mut chunks = BalancedChunksMut::new(&mut buf, k);
            let mut joined = Vec::new();
            let mut count = 0;
            while let Some(chunk) = chunks.next() {
                joined.extend_from_slice(chunk);
                count += 1;
            }
            assert_eq!(count, k);
            assert_eq!(joined, whole);
        }
    }
}

#[test]
fn chunk_sizes_differ_by_at_most_one() {
    for len in 0usize..40 {
        for k in 1usize..9 {
            let sizes = sizes_forward(len, k);
            let min = *sizes.iter().min().unwrap();
            let max = *sizes.iter().max().unwrap();
            assert!(max - min <= 1);
            assert_eq!(sizes.iter().sum::<usize>(), len);
        }
    }
}

#[test]
fn backward_traversal_yields_the_same_chunks() {
    for len in 0usize..40 {
        for k in 0usize..9 {
            let mut a: Vec<u32> = (0..len as u32).collect();
            let mut b = a.clone();
            let mut forward: Vec<Vec<u32>> = Vec::new();
            let mut chunks = BalancedChunksMut::new(&mut a, k);
            while let Some(chunk) = chunks.next() {
                forward.push(chunk.to_vec());
            }
            let mut backward: Vec<Vec<u32>> = Vec::new();
            let mut chunks = BalancedChunksMut::new(&mut b, k);
            while let Some(chunk) = chunks.next_back() {
                backward.push(chunk.to_vec());
            }
            backward.reverse();
            assert_eq!(forward, backward);
        }
    }
}

#[test]
fn traversal_from_both_ends_meets_in_the_middle() {
    let mut buf: Vec<u32> = (0..10).collect();
    let mut chunks = BalancedChunksMut::new(&mut buf, 4);
    assert_eq!(chunks.len(), 4);
    assert_eq!(chunks.next_back().unwrap().to_vec(), vec![8, 9]);
    assert_eq!(chunks.len(), 3);
    assert_eq!(chunks.next().unwrap().to_vec(), vec![0, 1, 2]);
    assert_eq!(chunks.next_back().unwrap().to_vec(), vec![6, 7]);
    assert_eq!(chunks.len(), 1);
    assert_eq!(chunks.next_back().unwrap().to_vec(), vec![3, 4, 5]);
    assert_eq!(chunks.len(), 0);
    assert!(chunks.next().is_none());
    assert!(chunks.next_back().is_none());
}

#[test]
fn backward_traversal_lowers_the_remainder_only_for_a_longer_chunk() {
    // 11 in 4 is [3, 3, 3, 2]: after the short chunk at the back, all three left are longer.
    let mut buf: Vec<u32> = (0..11).collect();
    let mut chunks = BalancedChunksMut::new(&mut buf, 4);
    assert_eq!(chunks.next_back().unwrap().len(), 2);
    assert_eq!(chunks.next_back().unwrap().len(), 3);
    assert_eq!(chunks.next().unwrap().len(), 3);
    assert_eq!(chunks.next_back().unwrap().to_vec(), vec![3, 4, 5]);
    assert!(chunks.next().is_none());
}

#[test]
fn len_counts_down() {
    let mut buf = [0u8; 9];
    let mut chunks = BalancedChunksMut::new(&mut buf, 5);
    for left in (0..5).rev() {
        assert!(chunks.next().is_some());
        assert_eq!(chunks.len(), left);
    }
}

#[test]
fn writes_through_the_chunks_reach_the_buffer() {
    let mut buf = vec![0u32; 10];
    {
        let mut chunks = BalancedChunksMut::new(&mut buf, 3);
        let mut index = 0;
        while let Some(chunk) = chunks.next() {
            index += 1;
            for cell in chunk.iter_mut() {
                *cell = index;
            }
        }
    }
    assert_eq!(buf, vec![1, 1, 1, 1, 2, 2, 2, 3, 3, 3]);
}
