use pixel_engine::selection::select_nth;

fn sorted_copy(v: &[u16]) -> Vec<u16> {
    let mut s = v.to_vec();
    s.sort();
    s
}

#[test]
fn select_nth_places_the_order_statistic() {
    let original: Vec<u16> = vec![9, 4, 7, 1, 8];
    let sorted = sorted_copy(&original);
    for idx in 0..original.len() {
        let mut work = original.clone();
        select_nth(&mut work, idx);
        assert_eq!(work[idx], sorted[idx]);
    }
}

#[test]
fn select_nth_partitions_around_the_rank() {
    let mut v: Vec<u16> = vec![5, 3, 8, 1, 9, 2, 7, 6, 4];
    select_nth(&mut v, 4);
    let pivot = v[4];
    assert_eq!(pivot, 5);
    for i in 0..4 {
        assert!(v[i] <= pivot);
    }
    for i in 5..v.len() {
        assert!(v[i] >= pivot);
    }
}

#[test]
fn select_nth_keeps_the_values() {
    let original: Vec<u16> = vec![2, 2, 1, 65535, 0, 2];
    let mut work = original.clone();
    select_nth(&mut work, 3);
    let mut a = original.clone();
    let mut b = work.clone();
    a.sort();
    b.sort();
    assert_eq!(a, b);
}

#[test]
fn select_nth_on_duplicates() {
    let mut v: Vec<u16> = vec![7, 7, 7, 7];
    select_nth(&mut v, 2);
    assert_eq!(v, vec![7, 7, 7, 7]);
}

#[test]
fn select_nth_random_inputs_match_full_sort() {
    // A small linear-congruential walk stands in for random inputs.
    let mut seed: u32 = 12345;
    for trial in 0..20 {
        let mut v: Vec<u16> = Vec::new();
        let len = 1 + (trial % 7);
        for _ in 0..len {
            seed = seed.wrapping_mul(1103515245).wrapping_add(12345);
            v.push((seed >> 16) as u16 % 50);
        }
        let sorted = sorted_copy(&v);
        for idx in 0..v.len() {
            let mut work = v.clone();
            select_nth(&mut work, idx);
            assert_eq!(work[idx], sorted[idx], "rank {idx} of {v:?}");
        }
    }
}
