use synthscope::complex::Complex;
use synthscope::fft::{
    bitwise_reverse, bitwise_reverse_permute, is_power_of_two, pow2_index, prepare_buffer,
    prepare_transform, round_to, round_to_nearest_pow2, SizeError,
};

#[test]
fn test_zero() {
    assert_eq!(is_power_of_two(0), false);
}

#[test]
fn test_two_powers() {
    let x: usize = 1;
    for i in 0..64 {
        assert_eq!(is_power_of_two(x << i), true);
    }
}

#[test]
fn test_not_two_powers() {
    let x: usize = 3;
    // 3 will overflow if we raise it 2^62
    for i in 0..62 {
        println!("{}, {}", i, x << i);
        assert_eq!(is_power_of_two(x << i), false);
    }
}

#[test]
fn test_pow2_1() {
    for i in 0..64 {
        assert_eq!(pow2_index(1 << i), i);
    }
}

#[test]
fn test_round_to_limits() {
    assert_eq!(
        round_to(vec![Complex::from_real(5.); 1024], 1024).unwrap().len(),
        1024
    );
    assert_eq!(round_to(vec![Complex::from_real(5.); 1024], 50).is_err(), true);
}

#[test]
fn test_round_to() {
    let rounded = round_to(vec![Complex::complex(5., 3.); 65], 1024).unwrap();
    assert_eq!(rounded.len(), 1024);
    for i in 0..65 {
        assert_eq!(rounded[i].real, 5.);
        assert_eq!(rounded[i].imaginary, 3.);
    }
    for i in 65..1024 {
        assert_eq!(rounded[i].real, 0.);
        assert_eq!(rounded[i].imaginary, 0.);
    }
}

#[test]
fn test_round_to_pow2() {
    assert_eq!(
        round_to_nearest_pow2(vec![Complex::from_real(5.); 1024])
            .unwrap()
            .len(),
        1024
    );
    assert_eq!(
        round_to_nearest_pow2(vec![Complex::from_real(5.); 565])
            .unwrap()
            .len(),
        1024
    );
}

#[test]
fn round_to_smaller_length_is_refused() {
    let r = round_to(vec![Complex::complex(1.0f64, 2.0); 65], 64);
    assert_eq!(r.unwrap_err(), SizeError::TooLarge);
}

#[test]
fn round_to_nearest_pow2_pads_with_zeros() {
    let v = round_to_nearest_pow2(vec![Complex::complex(1.0f64, -1.0); 5]).unwrap();
    assert_eq!(v.len(), 8);
    for i in 0..5 {
        assert_eq!(v[i].real, 1.0);
        assert_eq!(v[i].imaginary, -1.0);
    }
    for i in 5..8 {
        assert_eq!(v[i].real, 0.0);
        assert_eq!(v[i].imaginary, 0.0);
    }
    let one = round_to_nearest_pow2(vec![Complex::from_real(2.0f64)]).unwrap();
    assert_eq!(one.len(), 1);
    let empty: Vec<Complex<f64>> = Vec::new();
    assert_eq!(round_to_nearest_pow2(empty).unwrap().len(), 1);
}

#[test]
fn bitwise_reverse_values() {
    assert_eq!(bitwise_reverse(0b001, 3), 0b100);
    assert_eq!(bitwise_reverse(0b110, 3), 0b011);
    assert_eq!(bitwise_reverse(0b1011, 4), 0b1101);
    assert_eq!(bitwise_reverse(1, 10), 512);
    assert_eq!(bitwise_reverse(0b1_0000, 4), 0);
    assert_eq!(bitwise_reverse(5, 0), 0);
    assert_eq!(bitwise_reverse(1, 64), 1usize << 63);
}

#[test]
fn bitwise_reverse_twice_is_identity() {
    for k in 0..11 {
        for i in 0..(1usize << k) {
            assert_eq!(bitwise_reverse(bitwise_reverse(i, k), k), i);
        }
    }
}

#[test]
fn permute_eight_elements() {
    let mut v: Vec<u32> = (0..8).collect();
    bitwise_reverse_permute(&mut v, 8);
    assert_eq!(v, vec![0, 4, 2, 6, 1, 5, 3, 7]);
}

#[test]
fn prepare_transform_rejects_length_twenty() {
    let mut inp: Vec<Complex<f64>> = (0..20).map(|i| Complex::from_real((i + 20) as f64)).collect();
    let before: Vec<(f64, f64)> = inp.iter().map(|c| (c.real, c.imaginary)).collect();
    assert_eq!(prepare_transform(&mut inp), Err(SizeError::NotPowerOfTwo));
    let after: Vec<(f64, f64)> = inp.iter().map(|c| (c.real, c.imaginary)).collect();
    assert_eq!(before, after);
}

#[test]
fn prepare_transform_permutes_power_of_two() {
    let mut inp: Vec<u8> = vec![10, 11, 12, 13];
    assert_eq!(prepare_transform(&mut inp), Ok(()));
    assert_eq!(inp, vec![10, 12, 11, 13]);
    let mut empty: Vec<u8> = Vec::new();
    assert_eq!(prepare_transform(&mut empty), Err(SizeError::NotPowerOfTwo));
}

#[test]
fn prepare_buffer_copies_and_pads() {
    let mut buffer = vec![Complex::complex(9.0f64, 9.0); 8];
    assert_eq!(prepare_buffer(&mut buffer, &[1.0, 2.0, 3.0]), Ok(()));
    assert_eq!(buffer[0].real, 1.0);
    assert_eq!(buffer[2].real, 3.0);
    assert_eq!(buffer[2].imaginary, 0.0);
    for c in &buffer[3..] {
        assert_eq!(c.real, 0.0);
        assert_eq!(c.imaginary, 0.0);
    }
}

#[test]
fn prepare_buffer_refuses_full_window() {
    let mut buffer = vec![Complex::complex(9.0f64, 9.0); 4];
    assert_eq!(prepare_buffer(&mut buffer, &[1.0; 4]), Err(SizeError::TooLarge));
    assert_eq!(buffer[0].real, 9.0);
    assert_eq!(buffer[3].imaginary, 9.0);
}

#[test]
fn complex_constructors() {
    let a = Complex::complex(7.0f64, 2.0);
    assert_eq!((a.real, a.imaginary), (7.0, 2.0));
    let b = Complex::from_real(-3.5f32);
    assert_eq!((b.real, b.imaginary), (-3.5, 0.0));
}
