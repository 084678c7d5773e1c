use zhongchar::LearningFrame;

fn frame(prompts: Vec<usize>) -> LearningFrame {
    LearningFrame { size: prompts.len(), prompts }
}

#[test]
fn merge_appends_and_adds_sizes() {
    let merged = frame(vec![3, 1]).merge(frame(vec![4, 1, 5]));
    assert_eq!(merged.size, 5);
    assert_eq!(merged.prompts, vec![3, 1, 4, 1, 5]);
}

#[test]
fn merge_with_empty_frames() {
    let merged = frame(vec![]).merge(frame(vec![7]));
    assert_eq!(merged.size, 1);
    assert_eq!(merged.prompts, vec![7]);
    let merged = frame(vec![]).merge(frame(vec![]));
    assert_eq!(merged.size, 0);
    assert!(merged.prompts.is_empty());
}

#[test]
fn small_frame_is_not_split() {
    let (first, second) = frame(vec![0, 1, 2, 3, 4]).split();
    assert_eq!(first.size, 5);
    assert_eq!(first.prompts, vec![0, 1, 2, 3, 4]);
    assert!(second.is_none());
    let (first, second) = frame(vec![]).split();
    assert_eq!(first.size, 0);
    assert!(second.is_none());
}

#[test]
fn frame_of_six_is_split_in_halves() {
    let (first, second) = frame(vec![10, 11, 12, 13, 14, 15]).split();
    let second = second.unwrap();
    assert_eq!(first.size, 3);
    assert_eq!(first.prompts, vec![10, 11, 12]);
    assert_eq!(second.size, 3);
    assert_eq!(second.prompts, vec![13, 14, 15]);
}

#[test]
fn odd_frame_gives_larger_second_half() {
    let (first, second) = frame(vec![1, 2, 3, 4, 5, 6, 7]).split();
    let second = second.unwrap();
    assert_eq!(first.size, 3);
    assert_eq!(first.prompts, vec![1, 2, 3]);
    assert_eq!(second.size, 4);
    assert_eq!(second.prompts, vec![4, 5, 6, 7]);
}

#[test]
fn split_halves_merge_back() {
    let original = vec![9, 8, 7, 6, 5, 4, 3, 2];
    let (first, second) = frame(original.clone()).split();
    let merged = first.merge(second.unwrap());
    assert_eq!(merged.size, 8);
    assert_eq!(merged.prompts, original);
}

#[test]
fn split_cloned_leaves_frame_and_repeats() {
    let f = frame(vec![5, 6, 7, 8, 9, 10, 11]);
    let (a1, b1) = f.split_cloned();
    let (a2, b2) = f.split_cloned();
    assert_eq!(f.size, 7);
    assert_eq!(f.prompts, vec![5, 6, 7, 8, 9, 10, 11]);
    assert_eq!(a1.size, a2.size);
    assert_eq!(a1.prompts, a2.prompts);
    let (b1, b2) = (b1.unwrap(), b2.unwrap());
    assert_eq!(b1.size, b2.size);
    assert_eq!(b1.prompts, b2.prompts);
    assert_eq!(a1.prompts, vec![5, 6, 7]);
    assert_eq!(b1.prompts, vec![8, 9, 10, 11]);
}

#[test]
fn split_cloned_of_small_frame() {
    let f = frame(vec![2, 4]);
    let (a, b) = f.split_cloned();
    assert_eq!(a.size, 2);
    assert_eq!(a.prompts, vec![2, 4]);
    assert!(b.is_none());
    assert_eq!(f.prompts, vec![2, 4]);
}
