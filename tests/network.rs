use vector_example1::network::{merge_pair, merge_sort_u32x16x2, sort_u32x16, sort_u32x32, sort_u32x8};

fn random_array16(modulo: u32) -> [u32; 16] {
    let mut a = [0u32; 16];
    for x in a.iter_mut() {
        *x = rand::random::<u32>() % modulo;
    }
    a
}

#[test]
fn test_sort_u32x8() {
    let v1 = [8u32, 7, 6, 5, 4, 3, 2, 1];
    let mut nums = v1;
    sort_u32x8(&mut nums);

    println!("nums = {:?}", nums);
    assert_eq!(nums, [1, 2, 3, 4, 5, 6, 7, 8]);
}

#[test]
fn test_sort_u32x16() {
    for _ in 0..1024 {
        let mut nums: Vec<u32> = (0..16).map(|_| rand::random::<u32>() % 1000).collect();
        let mut simd = [0u32; 16];
        simd.copy_from_slice(&nums);
        sort_u32x16(&mut simd);

        nums.sort();
        assert_eq!(&simd as &[u32], &nums);
    }
}

#[test]
fn test_sort_u32x32() {
    for _ in 0..1024 {
        let mut nums: Vec<u32> = (0..32).map(|_| rand::random::<u32>() % 1000).collect();
        let mut simd = [0u32; 32];
        simd.copy_from_slice(&nums);
        sort_u32x32(&mut simd);

        nums.sort();
        assert_eq!(&simd as &[u32], &nums);
    }
}

#[test]
fn test_merge_sort_u32x16x2() {
    for _ in 0..1024 {
        let mut vec1: Vec<u32> = (0..16).map(|_| rand::random::<u32>() % 100).collect();
        let mut vec2: Vec<u32> = (0..16).map(|_| rand::random::<u32>() % 100).collect();
        vec1.sort();
        vec2.sort();

        let mut expected = Vec::new();
        expected.extend_from_slice(&vec1);
        expected.extend_from_slice(&vec2);
        expected.sort();

        let mut num1 = [0u32; 16];
        let mut num2 = [0u32; 16];
        num1.copy_from_slice(&vec1);
        num2.copy_from_slice(&vec2);
        merge_sort_u32x16x2(&mut num1, &mut num2);

        if &num1[..] != &expected[..16] || &num2[..] != &expected[16..] {
            println!("problem: vec1 = {:?}, vec2 = {:?}", vec1, vec2);
        }

        assert_eq!(&num1 as &[u32], &expected[..16]);
        assert_eq!(&num2 as &[u32], &expected[16..]);
    }
}

#[test]
fn sort_u32x8_matches_std_sort() {
    for _ in 0..4096 {
        let mut nums = [0u32; 8];
        for x in nums.iter_mut() {
            *x = rand::random::<u32>() % 16;
        }
        let mut expected = nums.to_vec();
        expected.sort();
        sort_u32x8(&mut nums);
        assert_eq!(nums.to_vec(), expected);
    }
}

#[test]
fn sort_u32x8_every_zero_one_input() {
    for bits in 0u32..256 {
        let mut nums = [0u32; 8];
        for (k, x) in nums.iter_mut().enumerate() {
            *x = (bits >> k) & 1;
        }
        let ones = bits.count_ones() as usize;
        sort_u32x8(&mut nums);
        for (k, x) in nums.iter().enumerate() {
            assert_eq!(*x, if k < 8 - ones { 0 } else { 1 });
        }
    }
}

#[test]
fn sort_u32x16_extremes_and_duplicates() {
    let mut nums = [u32::MAX, 0, 5, 5, u32::MAX, 1, 0, 5, 7, 7, 7, 2, u32::MAX, 3, 0, 9];
    let mut expected = nums.to_vec();
    expected.sort();
    sort_u32x16(&mut nums);
    assert_eq!(nums.to_vec(), expected);

    let mut same = [42u32; 16];
    sort_u32x16(&mut same);
    assert_eq!(same, [42u32; 16]);
}

#[test]
fn sort_u32x32_descending() {
    let mut nums = [0u32; 32];
    for (k, x) in nums.iter_mut().enumerate() {
        *x = 32 - k as u32;
    }
    sort_u32x32(&mut nums);
    let expected: Vec<u32> = (1..=32).collect();
    assert_eq!(nums.to_vec(), expected);
}

#[test]
fn merge_u32x16x2_odd_and_even() {
    let mut odd = [0u32; 16];
    let mut even = [0u32; 16];
    for k in 0..16 {
        odd[k] = 2 * k as u32 + 1;
        even[k] = 2 * k as u32 + 2;
    }
    merge_sort_u32x16x2(&mut odd, &mut even);
    let low: Vec<u32> = (1..=16).collect();
    let high: Vec<u32> = (17..=32).collect();
    assert_eq!(odd.to_vec(), low);
    assert_eq!(even.to_vec(), high);
    assert!(odd[15] <= even[0]);
}

#[test]
fn merge_u32x16x2_low_half_below_inputs() {
    for _ in 0..1024 {
        let mut a = random_array16(50);
        let mut b = random_array16(50);
        a.sort();
        b.sort();
        let (a0, b0) = (a, b);
        merge_sort_u32x16x2(&mut a, &mut b);
        for k in 0..16 {
            assert!(a[k] <= a0[k] && a[k] <= b0[k]);
        }
        assert!(a[15] <= b[0]);
    }
}

#[test]
fn merge_u32x16x2_already_apart() {
    let mut a = [0u32; 16];
    let mut b = [0u32; 16];
    for k in 0..16 {
        a[k] = 100 + k as u32;
        b[k] = k as u32;
    }
    merge_sort_u32x16x2(&mut a, &mut b);
    let low: Vec<u32> = (0..16).collect();
    let high: Vec<u32> = (100..116).collect();
    assert_eq!(a.to_vec(), low);
    assert_eq!(b.to_vec(), high);
}

/// Merge the runs `a` and `b` (of equal length) with the network; returns the
/// low and the high run.
fn merge_runs(a: &[u32], b: &[u32]) -> (Vec<u32>, Vec<u32>) {
    let g = a.len();
    let mut v = a.to_vec();
    v.extend_from_slice(b);
    merge_pair(&mut v, 0, g);
    (v[..g].to_vec(), v[g..].to_vec())
}

#[test]
fn test_merge_sort_u32x4() {
    let zero = rand::random::<u32>() % 2; // either 0 or 1
    let v_a = [zero, 20, 30, 40];
    let v_b = [2u32, 8, 25, 45];

    // concat v_a and v_b
    let mut vec = Vec::new();
    v_a.iter().for_each(|x| vec.push(*x));
    v_b.iter().for_each(|x| vec.push(*x));
    vec.sort();

    let (v_min, v_max) = merge_runs(&v_a, &v_b);
    assert_eq!(&v_min[..], &vec[0..4]);
    assert_eq!(&v_max[..], &vec[4..8]);
    println!("min: {:?} max: {:?}", v_min, v_max);
}

#[test]
fn test_merge_sort_u32x8() {
    for _ in 0..256 {
        let mut a1: [u32; 8] = [0u32; 8];
        let mut a2 = [0u32; 8];
        let mut all = Vec::new();

        // generate 8 random u32
        for i in 0..8 {
            a1[i] = rand::random::<u32>() % 1000;
            a2[i] = rand::random::<u32>() % 1000;
            all.push(a1[i]);
            all.push(a2[i]);
        }
        a1.sort();
        a2.sort();
        all.sort();

        let (v_min, v_max) = merge_runs(&a1, &a2);
        assert_eq!(&v_min[..], &all[0..8]);
        assert_eq!(&v_max[..], &all[8..16]);
    }
}

#[test]
fn test_merge_sort_u32x16() {
    for _ in 0..256 {
        let mut a1: [u32; 16] = [0u32; 16];
        let mut a2 = [0u32; 16];
        let mut all = Vec::new();

        // generate 16 random u32
        for i in 0..16 {
            a1[i] = rand::random::<u32>() % 1000;
            a2[i] = rand::random::<u32>() % 1000;
            all.push(a1[i]);
            all.push(a2[i]);
        }
        a1.sort();
        a2.sort();
        all.sort();

        let mut v_a = a1;
        let mut v_b = a2;
        merge_sort_u32x16x2(&mut v_a, &mut v_b);
        assert_eq!(&v_a[..], &all[0..16]);
        assert_eq!(&v_b[..], &all[16..32]);
    }
}

#[test]
fn merge_u32x16x2_unsorted_keeps_values_and_is_symmetric() {
    for _ in 0..512 {
        let a = random_array16(100);
        let b = random_array16(100);
        let (mut a1, mut b1) = (a, b);
        let (mut a2, mut b2) = (b, a);
        merge_sort_u32x16x2(&mut a1, &mut b1);
        merge_sort_u32x16x2(&mut a2, &mut b2);
        assert_eq!(a1, a2);
        assert_eq!(b1, b2);

        let mut before: Vec<u32> = a.iter().chain(b.iter()).copied().collect();
        let mut after: Vec<u32> = a1.iter().chain(b1.iter()).copied().collect();
        before.sort();
        after.sort();
        assert_eq!(before, after);
    }
}
