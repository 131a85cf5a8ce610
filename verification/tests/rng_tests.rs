use java_random::rng::next_uniquifier;
use java_random::rng::seed_from_entropy;
use java_random::rng::SEED_UNIQUIFIER_INIT;
use java_random::Random;

const SEED: i64 = 12345;

#[test]
fn next_i32() {
    let test_data = [
        1553932502i32,
        -2090749135,
        -287790814,
        -355989640,
        -716867186,
        161804169,
        1402202751,
        535445604,
        1011567003,
        151766778,
    ];
    let mut random = Random::new(SEED);
    for integer in test_data {
        assert_eq!(random.next_i32(), integer);
    }
}

#[test]
fn next_i32_bounded() {
    let test_data = [8986i32, 6352, 3510, 7524, 1029, 9584, 9211, 5554, 2269, 5121];
    let mut random = Random::new(SEED);
    for (index, integer) in test_data.into_iter().enumerate() {
        assert_eq!(
            random.next_i32_bounded((SEED as i32) + (index as i32)),
            integer
        );
    }
}

#[test]
fn next_i64() {
    let test_data = [
        6674089274190705457i64,
        -1236052134575208584,
        -3078921119283744887,
        6022414958441676900,
        4344647195749500666,
        6440041613324510652,
        8265573421575953197,
        -6674900032466492448,
        2919502189498201214,
        -4263262838430303025,
    ];
    let mut random = Random::new(SEED);
    for integer in test_data {
        assert_eq!(random.next_i64(), integer);
    }
}

#[test]
fn next_bool() {
    let test_data = [
        false, true, true, true, true, false, false, false, false, false,
    ];
    let mut random = Random::new(SEED);
    for expected in test_data {
        assert_eq!(random.next_bool(), expected);
    }
}

#[test]
fn next_f32() {
    let test_data = [
        0.3618030548095703f32,
        0.5132095217704773,
        0.932993471622467,
        0.9171146750450134,
        0.8330913186073303,
        0.03767293691635132,
        0.32647573947906494,
        0.12466812133789062,
        0.2355237603187561,
        0.03533589839935303,
    ];
    let mut random = Random::new(SEED);
    for expected in test_data {
        // A float in [0, 1): a 24-bit draw divided by 2^24, which is exact.
        let value = (random.next(24) as f32) / ((1i32 << 24) as f32);
        assert_eq!(value, expected);
    }
}

#[test]
fn next_f64() {
    let test_data = [
        0.3618031071604718f64,
        0.932993485288541,
        0.8330913489710237,
        0.32647575623792624,
        0.2355237906476252,
        0.34911535662488336,
        0.4480776326931518,
        0.6381529437838686,
        0.1582665432952023,
        0.768888060192009,
    ];
    let mut random = Random::new(SEED);
    for expected in test_data {
        // A double in [0, 1): a 53-bit numerator divided by 2^53, exact.
        let value = (random.next_f64_numerator() as f64) / ((1i64 << 53) as f64);
        assert_eq!(value, expected);
    }
}

#[test]
fn next_bytes() {
    let test_data = [-42i8, 32, -97, 92, 49, -77, 97, -125, 34, -87];
    let mut random = Random::new(SEED);
    let mut bytes = vec![0i8; 100];
    random.next_bytes(&mut bytes);
    for i in 0..10 {
        assert_eq!(test_data[i], bytes[i]);
    }
}

#[test]
fn next_bytes_partial_group() {
    let mut random = Random::new(42);
    let mut bytes = vec![0i8; 7];
    random.next_bytes(&mut bytes);
    assert_eq!(bytes, vec![53i8, -99, 65, -70, -9, -118, -2]);
}

#[test]
fn next_bytes_whole_groups() {
    let mut random = Random::new(42);
    let mut bytes = vec![0i8; 4];
    random.next_bytes(&mut bytes);
    assert_eq!(bytes, vec![53i8, -99, 65, -70]);
}

#[test]
fn next_bytes_empty() {
    let mut random = Random::new(42);
    let mut bytes: Vec<i8> = Vec::new();
    random.next_bytes(&mut bytes);
    assert!(bytes.is_empty());
    // An empty fill consumes no draws: the next output is the first draw.
    assert_eq!(random.next_i32(), Random::new(42).next_i32());
}

#[test]
fn seed_12345_first_draw() {
    let mut random = Random::new(12345);
    assert_eq!(random.next_i32(), 1553932502);
}

#[test]
fn bounded_powers_of_two() {
    let mut random = Random::new(SEED);
    let bounds = [1i32, 2, 16, 1024, 1 << 30];
    let expected = [0i32, 1, 14, 939, 894525027];
    for (bound, want) in bounds.into_iter().zip(expected) {
        assert_eq!(random.next_i32_bounded(bound), want);
    }
}

#[test]
fn bounded_rejection_path() {
    let mut random = Random::new(SEED);
    let bounds = [3i32, 7, 10, 100, i32::MAX];
    let expected = [1i32, 2, 1, 28, 1789050055];
    for (bound, want) in bounds.into_iter().zip(expected) {
        assert_eq!(random.next_i32_bounded(bound), want);
    }
}

#[test]
fn bounded_stays_in_range() {
    let mut random = Random::new(987654321);
    for bound in [1i32, 2, 3, 5, 6, 100, 1000, (1 << 30) - 1, 1 << 30] {
        for _ in 0..100 {
            let v = random.next_i32_bounded(bound);
            assert!(0 <= v && v < bound);
        }
    }
}

#[test]
fn uniquifier_sequence() {
    let first = next_uniquifier(SEED_UNIQUIFIER_INIT);
    assert_eq!(first, 3447679086515839964);
    assert_eq!(seed_from_entropy(first, 0), first);
    assert_eq!(seed_from_entropy(first, -1), !first);
}
