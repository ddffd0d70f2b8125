use tensor_kernel::bits::bit_swap0;
use tensor_kernel::tensor::apply;
use tensor_kernel::tensor::mat_vec_multiply;
use tensor_kernel::tensor::KernelError;

#[test]
fn test_bitswap() {
    assert_eq!(bit_swap0(2, 0b0110), 0b0011);
}

#[test]
fn core_test_bitswap() {
    assert_eq!(bit_swap0(2, 0b0110), 0b0011);
}

#[test]
fn test_bitswap_axis_zero_is_identity() {
    for v in 0..64u64 {
        assert_eq!(bit_swap0(0, v), v);
    }
}

#[test]
fn test_multiply_m() {
    let m = vec![vec![1, 3], vec![2, 4]];
    let data: Vec<i64> = (1..=8).collect();
    let result = mat_vec_multiply(&m, &data);
    let expect: Vec<i64> = vec![153, 351, 345, 791, 333, 763, 749, 1715];
    assert_eq!(result, Ok(expect));
}

#[test]
fn core_test_multiply_m() {
    let data: Vec<i64> = (1..=8).collect();
    let m = vec![vec![1, 2], vec![3, 4]];
    let result = apply(&m, &data);
    let target: Vec<i64> = vec![153, 351, 345, 791, 333, 763, 749, 1715];
    assert_eq!(result, target);
}

#[test]
fn test_output_length_matches_input() {
    let m = vec![vec![1, 3], vec![2, 4]];
    for n in 0..5u32 {
        let len = 1usize << n;
        let data: Vec<i64> = (0..len as i64).collect();
        let result = mat_vec_multiply(&m, &data).unwrap();
        assert_eq!(result.len(), data.len());
    }
}

#[test]
fn test_invalid_dimension() {
    let m = vec![vec![1, 0], vec![0, 1]];
    let data: Vec<i64> = vec![1, 2, 3];
    assert_eq!(mat_vec_multiply(&m, &data), Err(KernelError::InvalidDimension));
    let empty: Vec<i64> = vec![];
    assert_eq!(mat_vec_multiply(&m, &empty), Err(KernelError::InvalidDimension));
    assert_eq!(KernelError::InvalidDimension.message(), "data must have 2^N elements");
}

#[test]
fn test_invalid_operator() {
    let m = vec![vec![1, 2, 3], vec![4, 5, 6], vec![7, 8, 9]];
    let data: Vec<i64> = vec![1, 2, 3, 4];
    assert_eq!(mat_vec_multiply(&m, &data), Err(KernelError::InvalidOperator));
    let wide = vec![vec![1, 2, 3], vec![4, 5, 6]];
    assert_eq!(mat_vec_multiply(&wide, &data), Err(KernelError::InvalidOperator));
    assert_eq!(KernelError::InvalidOperator.message(), "m must be a 2x2 matrix.");
}

#[test]
fn test_state_checked_before_operator() {
    let m = vec![vec![1, 2, 3], vec![4, 5, 6], vec![7, 8, 9]];
    let data: Vec<i64> = vec![1, 2, 3];
    assert_eq!(mat_vec_multiply(&m, &data), Err(KernelError::InvalidDimension));
}

#[test]
fn test_identity_operator() {
    let m = vec![vec![1, 0], vec![0, 1]];
    let data: Vec<i64> = vec![5, -7, 11, 13];
    assert_eq!(mat_vec_multiply(&m, &data), Ok(data.clone()));
    assert_eq!(apply(&m, &data), data);
}

#[test]
fn test_single_element_state() {
    let m = vec![vec![9, 8], vec![7, 6]];
    let data: Vec<i64> = vec![42];
    assert_eq!(mat_vec_multiply(&m, &data), Ok(vec![42]));
    assert_eq!(apply(&m, &data), vec![42]);
}

#[test]
fn test_involution_bit_flip() {
    let m = vec![vec![0, 1], vec![1, 0]];
    let data: Vec<i64> = vec![3, 1, 4, 1, 5, 9, 2, 6];
    let once = mat_vec_multiply(&m, &data).unwrap();
    let twice = mat_vec_multiply(&m, &once).unwrap();
    assert_eq!(twice, data);
}

#[test]
fn test_scaling_by_two() {
    let data: Vec<i64> = (1..=8).collect();
    let base = mat_vec_multiply(&vec![vec![1, 3], vec![2, 4]], &data).unwrap();
    let scaled = mat_vec_multiply(&vec![vec![2, 6], vec![4, 8]], &data).unwrap();
    for i in 0..8 {
        assert_eq!(scaled[i], 8 * base[i]);
    }
}
