use rustxxx::alnum::{charn, charn_digits, dd_to_int, int_to_dd};
use rustxxx::bands::{auto_freq_bands, fixed_freq_bands, select_candidate_bins};

fn text(v: &[char]) -> String {
    v.iter().collect()
}

#[test]
fn charn_tables() {
    assert_eq!(charn(0, 0), ' ');
    assert_eq!(charn(1, 0), '0');
    assert_eq!(charn(11, 0), 'A');
    assert_eq!(charn(41, 0), '?');
    assert_eq!(charn(42, 0), '_');
    assert_eq!(charn(0, 2), '0');
    assert_eq!(charn(10, 2), 'A');
    assert_eq!(charn(9, 3), '9');
    assert_eq!(charn(10, 3), '_');
    assert_eq!(charn(0, 4), ' ');
    assert_eq!(charn(26, 4), 'Z');
    assert_eq!(charn(37, 5), '/');
}

#[test]
fn charn_digit_strings() {
    assert_eq!(text(&charn_digits(27 * 4 + 1, 27, 2, 4)), "DA");
    assert_eq!(text(&charn_digits(0, 38, 3, 5)), "   ");
}

#[test]
fn reports_as_text() {
    assert_eq!(text(&int_to_dd(-8, 2, true)), "-08");
    assert_eq!(text(&int_to_dd(12, 2, true)), "+12");
    assert_eq!(text(&int_to_dd(7, 3, false)), "007");
    assert_eq!(text(&int_to_dd(145, 3, false)), "145");
    // a value wider than the field puts what is left above the other digits first
    assert_eq!(text(&int_to_dd(332, 2, true)), "+Q2");
}

#[test]
fn reports_from_text() {
    assert_eq!(dd_to_int(&['-', '0', '8'], 3), -8);
    assert_eq!(dd_to_int(&['+', '1', '2'], 3), 12);
    assert_eq!(dd_to_int(&['9', '9', '9', '9'], 3), 999);
    assert_eq!(dd_to_int(&['1', 'x', '2'], 3), 1);
    assert_eq!(dd_to_int(&[], 3), 0);
    assert_eq!(dd_to_int(&['-'], 3), 0);
}

#[test]
fn fixed_bands() {
    let r = fixed_freq_bands(100, 2, 4);
    let got: Vec<(usize, usize)> = r.iter().map(|b| (b.from(), b.to())).collect();
    assert_eq!(got, vec![(0, 25), (25, 50), (50, 75), (75, 86)]);
    let r = fixed_freq_bands(100, 1, 3);
    let got: Vec<(usize, usize)> = r.iter().map(|b| (b.from(), b.to())).collect();
    assert_eq!(got, vec![(0, 33), (33, 66), (66, 93), (99, 93)]);
}

#[test]
fn auto_bands() {
    let active = [true, false, true, true, false, true, true, true, false, true];
    // 7 bins over threshold in 2 bands: a band closes when the count passes 3
    let r = auto_freq_bands(7, &active, 2);
    let got: Vec<(usize, usize)> = r.iter().map(|b| (b.from(), b.to())).collect();
    assert_eq!(got, vec![(0, 5)]);
    // 6 in 3 bands: a band closes when the count passes 2
    let r = auto_freq_bands(6, &active, 3);
    let got: Vec<(usize, usize)> = r.iter().map(|b| (b.from(), b.to())).collect();
    assert_eq!(got, vec![(0, 3), (3, 7)]);
}

#[test]
fn candidate_bins() {
    let bands = fixed_freq_bands(40, 2, 1);
    let band = &bands[0];
    assert_eq!((band.from(), band.to()), (0, 26));
    let mut passes = vec![false; 40];
    passes[1] = true;
    passes[2] = true;
    passes[9] = true;
    passes[10] = true;
    passes[11] = true;
    // bins 2 .. 26 - 8 * 2 = 10
    assert_eq!(select_candidate_bins(band, 2, 8, &passes), vec![2, 9]);
}
