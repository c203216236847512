use wordle_lol::stats::{histogram, summarize, Bar, Summary, BAR_WIDTH};

#[test]
fn summary_of_five_counts() {
    let counts = vec![2, 3, 3, 4, 7];
    let s = summarize(&counts).unwrap();
    assert_eq!(s.total, 5);
    assert_eq!(s.min, 2);
    assert_eq!(s.max, 7);
    assert_eq!(s.median, 3);
    assert_eq!(s.sum, 19);
    assert_eq!(format!("{:0.3}", s.sum as f64 / s.total as f64), "3.800");
}

#[test]
fn summary_does_not_depend_on_the_order() {
    let a = summarize(&vec![7, 3, 2, 4, 3]).unwrap();
    let b = summarize(&vec![2, 3, 3, 4, 7]).unwrap();
    assert_eq!(a, b);
}

#[test]
fn summary_of_nothing_is_none() {
    assert_eq!(summarize(&Vec::new()), None);
    assert!(histogram(&Vec::new()).is_empty());
}

#[test]
fn summary_of_one_count() {
    assert_eq!(
        summarize(&vec![4]),
        Some(Summary { total: 1, min: 4, max: 4, median: 4, sum: 4 })
    );
}

#[test]
fn median_of_an_even_number_is_the_upper_middle() {
    assert_eq!(summarize(&vec![4, 1, 3, 2]).unwrap().median, 3);
    assert_eq!(summarize(&vec![1, 6]).unwrap().median, 6);
}

#[test]
fn sum_does_not_overflow() {
    let s = summarize(&vec![usize::MAX, usize::MAX, 1]).unwrap();
    assert_eq!(s.sum, 2 * (usize::MAX as u128) + 1);
    assert_eq!(s.median, usize::MAX);
}

#[test]
fn histogram_of_five_counts() {
    let rows = histogram(&vec![2, 3, 3, 4, 7]);
    assert_eq!(
        rows,
        vec![
            Bar { guesses: 1, frequency: 0, width: 0 },
            Bar { guesses: 2, frequency: 1, width: 30 },
            Bar { guesses: 3, frequency: 2, width: 60 },
            Bar { guesses: 4, frequency: 1, width: 30 },
            Bar { guesses: 5, frequency: 0, width: 0 },
            Bar { guesses: 6, frequency: 0, width: 0 },
            Bar { guesses: 7, frequency: 1, width: 30 },
        ]
    );
}

#[test]
fn histogram_rounds_to_the_nearest() {
    let mut counts = vec![1; 7];
    counts.push(2);
    let rows = histogram(&counts);
    assert_eq!(rows[0], Bar { guesses: 1, frequency: 7, width: 60 });
    assert_eq!(rows[1], Bar { guesses: 2, frequency: 1, width: 9 });
    let mut counts = vec![1; 9];
    counts.extend([2, 2, 2, 2]);
    let rows = histogram(&counts);
    assert_eq!(rows[1], Bar { guesses: 2, frequency: 4, width: 27 });
}

#[test]
fn histogram_rounds_a_half_up() {
    let mut counts = vec![1; 8];
    counts.push(2);
    let rows = histogram(&counts);
    assert_eq!(rows[1], Bar { guesses: 2, frequency: 1, width: 8 });
}

#[test]
fn histogram_widest_bar_is_sixty() {
    assert_eq!(BAR_WIDTH, 60);
    let rows = histogram(&vec![3, 3, 3, 1]);
    assert_eq!(rows.len(), 3);
    assert_eq!(rows[2].width, 60);
    assert!(rows.iter().all(|r| r.width <= 60));
}

#[test]
fn histogram_counts_zero_for_the_widest_bar_only() {
    let rows = histogram(&vec![0, 0, 0, 2]);
    assert_eq!(
        rows,
        vec![
            Bar { guesses: 1, frequency: 0, width: 0 },
            Bar { guesses: 2, frequency: 1, width: 20 },
        ]
    );
}
