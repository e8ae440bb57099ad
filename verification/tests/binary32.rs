use core::cmp::Ordering;
use pkvector::binary32::Binary32;

fn single(x: f32) -> Binary32 {
    Binary32::from_bits(x.to_bits())
}

/// Bit patterns in their total order.
fn ascending() -> Vec<u32> {
    vec![
        0xffff_ffff, // negative NaN
        0xff80_0001,
        0xff80_0000, // negative infinity
        0xff7f_ffff,
        0xbf80_0000, // -1
        0x8000_0001,
        0x8000_0000, // -0
        0x0000_0000,
        0x0000_0001,
        0x3f80_0000, // 1
        0x7f7f_ffff,
        0x7f80_0000, // infinity
        0x7f80_0001, // NaN
        0x7fff_ffff,
    ]
}

#[test]
fn total_order_runs_from_negative_nan_to_nan() {
    let bits = ascending();
    for i in 0..bits.len() {
        for j in 0..bits.len() {
            let x = Binary32::from_bits(bits[i]);
            let y = Binary32::from_bits(bits[j]);
            assert_eq!(x.total_cmp(&y), i.cmp(&j));
            assert_eq!(
                x.total_cmp(&y),
                f32::from_bits(bits[i]).total_cmp(&f32::from_bits(bits[j]))
            );
        }
    }
}

#[test]
fn numbers_behave_as_those_of_the_machine() {
    for &a in ascending().iter() {
        let x = Binary32::from_bits(a);
        let float = f32::from_bits(a);
        assert_eq!(x.to_bits(), a);
        assert_eq!(x.is_finite(), float.is_finite());
        assert_eq!(x.is_zero(), float == 0.0);
        assert_eq!(x.negate().to_bits(), (-float).to_bits());
        assert_eq!(x.negate().negate().to_bits(), a);
        assert_eq!(
            x.clamp(single(-1.0), single(1.0)).to_bits(),
            float.clamp(-1.0, 1.0).to_bits()
        );
        for &b in ascending().iter() {
            assert_eq!(x.is_less_than(Binary32::from_bits(b)), float < f32::from_bits(b));
            assert_eq!(x == Binary32::from_bits(b), float == f32::from_bits(b));
        }
    }
}

#[test]
fn negation_reverses_the_total_order() {
    for &a in ascending().iter() {
        for &b in ascending().iter() {
            let x = Binary32::from_bits(a);
            let y = Binary32::from_bits(b);
            assert_eq!(x.total_cmp(&y), y.negate().total_cmp(&x.negate()));
        }
    }
}

#[test]
fn zero_and_one_are_what_they_are_called() {
    assert_eq!(Binary32::zero().to_bits(), 0.0f32.to_bits());
    assert_eq!(Binary32::one(), single(1.0));
    assert_eq!(Binary32::zero().total_cmp(&Binary32::one()), Ordering::Less);
}
