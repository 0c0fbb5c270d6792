use spectral_decay::generate_sizes;

#[test]
fn fft_sizes() {
    let sizes = generate_sizes(8, 32, 2);
    assert_eq!(sizes[..5], [8, 12, 16, 24, 32]);

    println!("3");
    let _s = generate_sizes(64, 8192, 3);
    println!("4");
    let _s = generate_sizes(64, 8192, 4);
    println!("5");
    let _s = generate_sizes(64, 8192, 5);
    println!("7");
    let _s = generate_sizes(64, 8192, 7);
    println!("9");
    let _s = generate_sizes(64, 8192, 9);
    println!("11");
    let _s = generate_sizes(64, 8192, 11);
}

fn is_spare_product(m: u64) -> bool {
    [1, 5, 7, 11, 25, 35, 49, 55, 77, 121].contains(&m)
}

#[test]
fn generated_sizes_factor_over_small_primes() {
    let start: u64 = 64;
    let end: u64 = 8192;
    let sizes = generate_sizes(start, end, 9);
    assert!(!sizes.is_empty());
    for w in sizes.windows(2) {
        assert!(w[0] <= w[1]);
    }
    for &size in &sizes {
        let x = size as u64;
        assert!(start <= x && x <= end);
        assert_eq!(x % 4, 0);
        let mut m = x;
        let mut twos = 0;
        while m % 2 == 0 {
            m /= 2;
            twos += 1;
        }
        assert!(twos >= 2);
        while m % 3 == 0 {
            m /= 3;
        }
        assert!(is_spare_product(m));
    }
}

#[test]
fn generated_sizes_count_and_spacing() {
    // one octave at one division per octave: the two endpoints
    let sizes = generate_sizes(16, 32, 1);
    assert_eq!(sizes, vec![16, 32]);
    // a range with a single candidate repeats it for every step
    let sizes = generate_sizes(16, 16, 4);
    assert_eq!(sizes, vec![16]);
}
