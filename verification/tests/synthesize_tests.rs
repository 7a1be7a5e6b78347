use lib::decoder::synthesize::{dct4, dct8};

#[test]
fn dct8_at_the_extreme_scales_sets_one_column() {
    let data: [i16; 8] = [32767, -32768, 1234, -4321, 32767, 0, -1, 20000];
    for scale in [-11, -3, 14, 15, 18] {
        let mut out0 = [[7i16; 10]; 8];
        let mut out1 = [[7i16; 10]; 8];
        dct8(&data, scale, &mut out0, &mut out1, 3);
        for k in 0..8 {
            for j in 0..10 {
                if j != 3 {
                    assert_eq!(out0[k][j], 7);
                    assert_eq!(out1[k][j], 7);
                }
            }
        }
        assert_eq!(out0[4][3], 0);
        assert_eq!(out1[5][3], out1[3][3]);
        assert_eq!(out1[6][3], out1[2][3]);
        assert_eq!(out1[7][3], out1[1][3]);
    }
}

#[test]
fn dct8_of_an_impulse_at_the_largest_scale() {
    // The first coefficient is 16384 * 5793 / 2 = 47456256, rounded over 30 bits: 0.
    let data: [i16; 8] = [16384, 0, 0, 0, 0, 0, 0, 0];
    let mut out0 = [[0i16; 10]; 8];
    let mut out1 = [[0i16; 10]; 8];
    dct8(&data, 18, &mut out0, &mut out1, 0);
    assert_eq!(out0[0][0], 0);
    // At the smallest scale, one bit of rounding: saturated.
    dct8(&data, -11, &mut out0, &mut out1, 0);
    assert_eq!(out0[0][0], 32767);
}

#[test]
fn dct4_at_the_extreme_scales_sets_one_column() {
    let data: [i16; 4] = [-32768, 32767, 100, -100];
    for scale in [-11, 18] {
        let mut out0 = [[5i16; 10]; 8];
        let mut out1 = [[5i16; 10]; 8];
        dct4(&data, scale, &mut out0, &mut out1, 9);
        for k in 0..8 {
            for j in 0..9 {
                assert_eq!(out0[k][j], 5);
                assert_eq!(out1[k][j], 5);
            }
        }
        assert_eq!(out0[2][9], 0);
        assert_eq!(out1[3][9], out1[1][9]);
        for k in 4..8 {
            assert_eq!(out0[k][9], 5);
        }
    }
}
