use std::hint::black_box;
use vector_example1::merge::merge_sort_2;
use vector_example1::sort::sort;

fn random_sorted(len: usize, modulo: u32) -> Vec<u32> {
    let mut v: Vec<u32> = (0..len).map(|_| rand::random::<u32>() % modulo).collect();
    v.sort();
    v
}

#[test]
fn sort2_test_sort() {
    for order in 0..15 {
        let len: usize = 32 << order; // 32, 64, .., 2^19

        let vec: Vec<u32> = (0..len).map(|_| rand::random::<u32>()).collect();
        let mut expected = black_box(&vec).clone();
        expected.sort();

        let mut vec = black_box(&vec).clone();
        sort(black_box(&mut vec));
        assert_eq!(vec, expected);
    }
}

#[test]
fn sort_test_sort() {
    for len in 1..1000 {
        for _ in 0..2 {
            let total: usize = 16 * len;
            let vec: Vec<u32> = (0..total).map(|_| rand::random::<u32>() % 1_000_000).collect();
            let mut expected = vec.clone();
            expected.sort();

            let mut result = vec.clone();
            sort(&mut result);

            if result != expected {
                println!("vec = {:?}", vec);
                println!("result = {:?}", result);
                println!("expect = {:?}", expected);
            }
            assert_eq!(result, expected);
        }
    }
}

#[test]
fn sort_48_random_values_matches_std_sort() {
    for _ in 0..256 {
        let vec: Vec<u32> = (0..48).map(|_| rand::random::<u32>()).collect();
        let mut expected = vec.clone();
        expected.sort_unstable();
        let mut result = vec.clone();
        sort(&mut result);
        assert_eq!(result, expected);
    }
}

#[test]
fn sort_exactly_16_and_32() {
    let mut sixteen: Vec<u32> = (0..16).rev().collect();
    sort(&mut sixteen);
    assert_eq!(sixteen, (0..16).collect::<Vec<u32>>());

    let mut thirty_two: Vec<u32> = (0..32).map(|k| (k * 7) % 32).collect();
    sort(&mut thirty_two);
    assert_eq!(thirty_two, (0..32).collect::<Vec<u32>>());
}

#[test]
fn sort_twice_changes_nothing() {
    for blocks in 1..40 {
        let mut v: Vec<u32> = (0..16 * blocks).map(|_| rand::random::<u32>() % 100).collect();
        sort(&mut v);
        let once = v.clone();
        sort(&mut v);
        assert_eq!(v, once);
    }
}

#[test]
fn sort_keeps_the_values() {
    for blocks in [3usize, 5, 7, 9, 13, 17, 33] {
        let vec: Vec<u32> = (0..16 * blocks).map(|_| rand::random::<u32>() % 10).collect();
        let mut result = vec.clone();
        sort(&mut result);
        for w in result.windows(2) {
            assert!(w[0] <= w[1]);
        }
        let mut counts_in = [0usize; 10];
        let mut counts_out = [0usize; 10];
        for x in &vec {
            counts_in[*x as usize] += 1;
        }
        for x in &result {
            counts_out[*x as usize] += 1;
        }
        assert_eq!(counts_in, counts_out);
    }
}

#[test]
fn sort_extreme_values() {
    let mut v: Vec<u32> = Vec::new();
    for k in 0..64u32 {
        v.push(if k % 3 == 0 { u32::MAX } else { k % 5 });
    }
    let mut expected = v.clone();
    expected.sort();
    sort(&mut v);
    assert_eq!(v, expected);
}

#[test]
fn merge_odd_with_even() {
    let odd: Vec<u32> = (0..16).map(|k| 2 * k + 1).collect();
    let even: Vec<u32> = (0..16).map(|k| 2 * k + 2).collect();
    let mut out = vec![0u32; 32];
    merge_sort_2(&odd, &even, &mut out);
    assert_eq!(out, (1..=32).collect::<Vec<u32>>());
}

#[test]
fn merge_unequal_lengths() {
    for (l1, l2) in [(16usize, 16usize), (16, 48), (48, 16), (32, 80), (64, 64), (112, 32)] {
        for _ in 0..64 {
            let a = random_sorted(l1, 200);
            let b = random_sorted(l2, 200);
            let mut out = vec![0u32; l1 + l2];
            merge_sort_2(&a, &b, &mut out);
            let mut expected = a.clone();
            expected.extend_from_slice(&b);
            expected.sort();
            assert_eq!(out, expected);
        }
    }
}

#[test]
fn merge_already_in_order() {
    let a: Vec<u32> = (0..32).collect();
    let b: Vec<u32> = (32..64).collect();
    let mut out = vec![0u32; 64];
    merge_sort_2(&a, &b, &mut out);
    assert_eq!(out, (0..64).collect::<Vec<u32>>());
}

#[test]
fn merge_first_entirely_above_second() {
    let a: Vec<u32> = (100..148).collect();
    let b: Vec<u32> = (0..16).collect();
    let mut out = vec![0u32; 64];
    merge_sort_2(&a, &b, &mut out);
    let mut expected = b.clone();
    expected.extend_from_slice(&a);
    assert_eq!(out, expected);
}
