use surfaceflinger_hook::bound::{gcd, reduce_fraction, soft_jank_scale, Bound};
use surfaceflinger_hook::Message;

#[test]
fn test_bound() {
    let answer = Bound {
        vsync_jank_scale: 1,
        soft_jank_scale: 1,
        vsync_do_scale: 1,
    };
    assert_eq!(Bound::new((120, 120, Message::Vsync)), answer);

    let answer = Bound {
        vsync_jank_scale: 1,
        soft_jank_scale: 1,
        vsync_do_scale: 1,
    };
    assert_eq!(Bound::new((120, 120, Message::Vsync)), answer);
}

#[test]
fn bound_of_unequal_rates() {
    let b = Bound::new((120, 60, Message::Soft));
    assert_eq!(
        b,
        Bound {
            vsync_jank_scale: 2,
            soft_jank_scale: 1,
            vsync_do_scale: 1,
        }
    );
    let b = Bound::new((60, 144, Message::Vsync));
    assert_eq!(
        b,
        Bound {
            vsync_jank_scale: 5,
            soft_jank_scale: 3,
            vsync_do_scale: 12,
        }
    );
}

#[test]
fn bound_with_zero_vsync_rate() {
    let b = Bound::new((0, 90, Message::Vsync));
    assert_eq!(b.soft_jank_scale, u32::MAX);
    assert_eq!(b.vsync_do_scale, 1);
    assert_eq!(b.vsync_jank_scale, 0);
}

#[test]
fn gcd_values() {
    assert_eq!(gcd(12, 18), 6);
    assert_eq!(gcd(0, 7), 7);
    assert_eq!(gcd(7, 0), 7);
    assert_eq!(gcd(0, 0), 0);
    assert_eq!(gcd(17, 5), 1);
}

#[test]
fn reduce_fraction_values() {
    assert_eq!(reduce_fraction(120, 60), (2, 1));
    assert_eq!(reduce_fraction(144, 60), (12, 5));
    assert_eq!(reduce_fraction(0, 60), (0, 1));
    assert_eq!(reduce_fraction(60, 0), (1, 0));
}

fn float_scale(num: u32, den: u32) -> u32 {
    let s = num as f32 / den as f32;
    s.max(1.0).ceil() as u32
}

#[test]
fn soft_scale_matches_single_precision() {
    let samples: [u32; 24] = [
        1,
        2,
        3,
        7,
        60,
        90,
        120,
        144,
        1000,
        4096,
        16_777_215,
        16_777_216,
        16_777_217,
        16_777_219,
        33_554_431,
        100_000_007,
        123_456_789,
        2_147_483_647,
        2_147_483_648,
        3_000_000_001,
        4_294_967_040,
        4_294_967_167,
        4_294_967_168,
        u32::MAX,
    ];
    for &num in samples.iter() {
        for &den in samples.iter() {
            assert_eq!(
                soft_jank_scale(num, den),
                float_scale(num, den),
                "num {num} den {den}"
            );
        }
    }
    let mut x: u64 = 0x2545_f491_4f6c_dd1d;
    for _ in 0..20000 {
        x ^= x << 13;
        x ^= x >> 7;
        x ^= x << 17;
        let num = (x >> 32) as u32 >> (x % 31);
        let den = (x as u32) >> ((x >> 8) % 31);
        if num == 0 && den == 0 {
            continue;
        }
        assert_eq!(
            soft_jank_scale(num, den),
            float_scale(num, den),
            "num {num} den {den}"
        );
    }
}

#[test]
fn soft_scale_edges() {
    assert_eq!(soft_jank_scale(0, 5), 1);
    assert_eq!(soft_jank_scale(5, 0), u32::MAX);
    assert_eq!(soft_jank_scale(0, 0), 1);
    assert_eq!(soft_jank_scale(1, 1), 1);
    assert_eq!(soft_jank_scale(7, 2), 4);
    assert_eq!(soft_jank_scale(u32::MAX, 1), u32::MAX);
}

#[test]
fn only_the_ratio_matters() {
    for (a, b) in [(60u32, 144u32), (120, 90), (144, 60), (7, 0), (1000, 999)] {
        for k in [1u32, 2, 3, 10, 1000] {
            assert_eq!(
                Bound::new((k * a, k * b, Message::Vsync)),
                Bound::new((a, b, Message::Soft)),
                "a {a} b {b} k {k}"
            );
        }
    }
    assert_eq!(
        Bound::new((3 * 5_592_407, 5_592_405, Message::Vsync)),
        Bound::new((5_592_407 * 3, 5_592_405, Message::Soft))
    );
}

#[test]
fn soft_scale_is_integer_ceiling_up_to_2_pow_24() {
    let ceiling = |num: u32, den: u32| if num <= den { 1 } else { (num + den - 1) / den };
    let samples = [1u32, 2, 3, 59, 60, 61, 120, 144, 4097, 65_537, 8_388_609, 16_777_215, 16_777_216];
    for &num in samples.iter() {
        for &den in samples.iter() {
            assert_eq!(soft_jank_scale(num, den), ceiling(num, den), "{num} {den}");
        }
    }
    for num in 0u32..200 {
        for den in 1u32..200 {
            assert_eq!(soft_jank_scale(num, den), ceiling(num, den), "{num} {den}");
        }
    }
}
