use ask::binary64::{greater, of_integer, one_plus, product, quotient, Binary64};

/// The number as the machine has it.
fn value(number: Binary64) -> f64 {
    number.significand as f64 * 2f64.powi(number.exponent as i32)
}

fn numbers() -> Vec<usize> {
    let mut all = vec![
        1,
        2,
        3,
        5,
        7,
        10,
        97,
        1000,
        12_345,
        (1 << 53) - 1,
        1 << 53,
        (1 << 53) + 1,
        (1 << 53) + 3,
        (1 << 54) + 2,
        usize::MAX,
        usize::MAX - 1023,
        usize::MAX - 1024,
    ];
    let mut state: u64 = 88_172_645_463_325_252;
    for shift in 0..60 {
        state ^= state << 13;
        state ^= state >> 7;
        state ^= state << 17;
        all.push((state >> shift) as usize | 1);
    }
    all
}

#[test]
fn arithmetic_is_that_of_the_machine() {
    for a in numbers() {
        let x = of_integer(a);
        assert_eq!(value(x), a as f64);
        for b in numbers() {
            let y = of_integer(b);
            let ratio = quotient(x, y);
            assert_eq!(value(ratio), a as f64 / b as f64, "{a} / {b}");
            let square = product(ratio, ratio);
            let machine = a as f64 / b as f64;
            assert_eq!(value(square), machine * machine);
            assert_eq!(value(one_plus(square)), 1.0 + machine * machine, "{a} {b}");
            assert_eq!(greater(x, y), a as f64 > b as f64);
            assert_eq!(greater(ratio, y), machine > b as f64);
        }
    }
}
