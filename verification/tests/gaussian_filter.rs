use ahc_subs::ahc022::gaussian_filter::GaussianFilter;

#[test]
fn test_gaussian_filter() {
    // filter
    let filter = GaussianFilter::new(vec![vec![1, 2, 1], vec![2, 4, 2], vec![1, 2, 1]]);

    let target = vec![
        vec![0, 0, 0, 0, 0],
        vec![0, 0, 0, 0, 0],
        vec![0, 0, 9, 0, 0],
        vec![0, 0, 0, 0, 0],
        vec![0, 0, 0, 0, 0],
    ];

    let res = filter.convolution(&target);
    println!("{:?}", res);
}

#[test]
fn test_smoothing3x3() {
    let target = vec![
        vec![0, 0, 0, 0, 0],
        vec![0, 0, 0, 0, 0],
        vec![0, 0, 16, 0, 0],
        vec![0, 0, 0, 0, 0],
        vec![0, 0, 0, 0, 0],
    ];

    let res = GaussianFilter::smoothing3x3(&target);

    assert_eq!(
        &res,
        &vec![
            vec![0, 0, 0, 0, 0],
            vec![0, 1, 2, 1, 0],
            vec![0, 2, 4, 2, 0],
            vec![0, 1, 2, 1, 0],
            vec![0, 0, 0, 0, 0]
        ]
    );

    println!("{:?}", &res);
}

#[test]
fn test_smoothing5x5() {
    let target = vec![
        vec![0, 0, 0, 0, 0],
        vec![0, 0, 0, 0, 0],
        vec![0, 0, 256, 0, 0],
        vec![0, 0, 0, 0, 0],
        vec![0, 0, 0, 0, 0],
    ];

    let res = GaussianFilter::smoothing5x5(&target);

    assert_eq!(
        &res,
        &vec![
            vec![1, 4, 6, 4, 1],
            vec![4, 16, 24, 16, 4],
            vec![6, 24, 36, 24, 6],
            vec![4, 16, 24, 16, 4],
            vec![1, 4, 6, 4, 1],
        ]
    );

    println!("{:?}", &res);
}

#[test]
fn spike_spreads_as_kernel_with_ceiling() {
    let filter = GaussianFilter::new(vec![vec![1, 2, 1], vec![2, 4, 2], vec![1, 2, 1]]);
    let target = vec![
        vec![0, 0, 0, 0, 0],
        vec![0, 0, 0, 0, 0],
        vec![0, 0, 9, 0, 0],
        vec![0, 0, 0, 0, 0],
        vec![0, 0, 0, 0, 0],
    ];
    let res = filter.convolution(&target);
    // ceil(9 * k / 16)
    assert_eq!(
        res,
        vec![
            vec![0, 0, 0, 0, 0],
            vec![0, 1, 2, 1, 0],
            vec![0, 2, 3, 2, 0],
            vec![0, 1, 2, 1, 0],
            vec![0, 0, 0, 0, 0],
        ]
    );
}

#[test]
fn smoothing_wraps_around_the_torus() {
    let target = vec![vec![16, 0, 0], vec![0, 0, 0], vec![0, 0, 0]];
    let res = GaussianFilter::smoothing3x3(&target);
    assert_eq!(res, vec![vec![4, 2, 2], vec![2, 1, 1], vec![2, 1, 1]]);
}

#[test]
fn constant_field_is_kept() {
    let target = vec![vec![7; 4]; 4];
    let res = GaussianFilter::smoothing3x3(&target);
    assert_eq!(res, vec![vec![7; 4]; 4]);
}

#[test]
fn zero_field_stays_zero() {
    let target = vec![vec![0; 6]; 6];
    assert_eq!(GaussianFilter::smoothing5x5(&target), vec![vec![0; 6]; 6]);
}

#[test]
fn custom_kernel_weight_is_its_sum() {
    // a 1x2 kernel of weight 3: cell c receives t[c]*1 from offset 0 and
    // t[c-1]*2 (columns shifted by -1 from the half width 1)
    let filter = GaussianFilter::new(vec![vec![1, 2]]);
    let target = vec![vec![3, 0, 0, 0]];
    let res = filter.convolution(&target);
    assert_eq!(res, vec![vec![2, 0, 0, 1]]);
}

#[test]
fn smoothing_keeps_a_flat_field() {
    let flat = vec![vec![7usize; 4]; 4];
    assert_eq!(GaussianFilter::smoothing3x3(&flat), flat);
    let wide = vec![vec![123usize; 6]; 5];
    assert_eq!(GaussianFilter::smoothing5x5(&wide), wide);
}

#[test]
fn unit_filter_leaves_the_grid_as_it_is() {
    let filter = GaussianFilter::new(vec![vec![1]]);
    let target = vec![vec![3, 0, 7, 1], vec![5, 9, 2, 8], vec![4, 6, 0, 2]];
    assert_eq!(filter.convolution(&target), target);
    let single = vec![vec![42]];
    assert_eq!(filter.convolution(&single), single);
}
