use brazucascan::progress::{Progress, BAR_WIDTH};

#[test]
fn progress_has_the_rounded_percentage() {
    assert_eq!(Progress::update(1, 3), Progress { percentage: 33, fill_cells: 17 });
    assert_eq!(Progress::update(2, 3), Progress { percentage: 67, fill_cells: 34 });
    assert_eq!(Progress::update(3, 3), Progress { percentage: 100, fill_cells: 50 });
    assert_eq!(Progress::update(1, 8), Progress { percentage: 13, fill_cells: 7 });
    assert_eq!(Progress::update(1, 2), Progress { percentage: 50, fill_cells: 25 });
    assert_eq!(Progress::update(1, 200), Progress { percentage: 1, fill_cells: 1 });
    assert_eq!(Progress::update(1, 201), Progress { percentage: 0, fill_cells: 0 });
    assert_eq!(Progress::update(0, 7), Progress { percentage: 0, fill_cells: 0 });
    assert_eq!(Progress::update(1, 1), Progress { percentage: 100, fill_cells: 50 });
}

#[test]
fn progress_is_capped_at_one_hundred() {
    assert_eq!(Progress::update(9, 3), Progress { percentage: 100, fill_cells: 50 });
    assert_eq!(Progress::update(u64::MAX, 1), Progress { percentage: 100, fill_cells: 50 });
    assert_eq!(Progress::update(u64::MAX, u64::MAX), Progress { percentage: 100, fill_cells: 50 });
    assert_eq!(Progress::update(u64::MAX / 2, u64::MAX), Progress { percentage: 50, fill_cells: 25 });
}

#[test]
fn last_half_percent_rounds_up_to_one_hundred() {
    assert_eq!(Progress::update(199, 200).percentage, 100);
    assert_eq!(Progress::update(198, 200).percentage, 99);
    assert_eq!(Progress::update(198, 199).percentage, 99);
}

#[test]
fn progress_never_goes_back_within_a_scan() {
    for total in [1u64, 2, 3, 7, 50, 99, 100, 101, 200, 333, 1000, 65536] {
        let mut before = Progress::update(0, total);
        for completed in 1..=total {
            let now = Progress::update(completed, total);
            assert!(now.percentage >= before.percentage);
            assert!(now.fill_cells >= before.fill_cells);
            assert!(now.percentage <= 100);
            assert!(now.fill_cells <= BAR_WIDTH);
            before = now;
        }
        assert_eq!(before, Progress { percentage: 100, fill_cells: 50 });
    }
}

#[test]
fn percentage_is_the_exact_ratio_rounded_half_up() {
    for total in 1u64..=400 {
        for completed in 0..=total {
            let progress = Progress::update(completed, total);
            let percentage = progress.percentage as u64;
            // percentage - 1/2 <= 100 * completed / total < percentage + 1/2
            assert!((2 * percentage - 1) as i64 * total as i64 <= 200 * completed as i64);
            if percentage < 100 {
                assert!(200 * completed < (2 * percentage + 1) * total);
            }
        }
    }
}

#[test]
fn percentage_leaves_floating_point_only_at_exact_halves() {
    let mut apart = 0;
    for total in 1u64..=400 {
        for completed in 0..=total {
            let in_floating_point = (completed as f64 / total as f64 * 100.0).round() as u8;
            let progress = Progress::update(completed, total);
            if progress.percentage != in_floating_point {
                assert_eq!((200 * completed) % (2 * total), total, "{} of {}", completed, total);
                assert_eq!(progress.percentage, in_floating_point + 1);
                apart += 1;
            }
        }
    }
    assert!(apart < 100);
    assert_eq!(Progress::update(23, 40).percentage, 58);
}

#[test]
fn fill_cells_are_half_the_percentage_rounded_up() {
    let mut apart = Vec::new();
    for percentage in 0u8..=100 {
        let progress = Progress::update(percentage as u64, 100);
        assert_eq!(progress.percentage, percentage);
        assert_eq!(progress.fill_cells, (percentage + 1) / 2);
        let in_floating_point = ((percentage as f64 / 100.0) * 50.0).round() as u8;
        if in_floating_point != progress.fill_cells {
            assert_eq!(in_floating_point + 1, progress.fill_cells);
            assert_eq!(percentage % 2, 1);
            apart.push(percentage);
        }
    }
    assert_eq!(apart, vec![29, 57]);
}

#[test]
fn bar_shows_filled_cells_then_blanks() {
    let empty = Progress { percentage: 0, fill_cells: 0 };
    assert_eq!(empty.bar_text(), " ".repeat(50));
    let full = Progress { percentage: 100, fill_cells: 50 };
    assert_eq!(full.bar_text(), "#".repeat(50));
    let third = Progress::update(1, 3);
    assert_eq!(third.bar_text(), format!("{}{}", "#".repeat(17), " ".repeat(33)));
    for cells in 0u8..=50 {
        let bar = Progress { percentage: 2 * cells, fill_cells: cells }.bar_text();
        assert_eq!(bar.len(), 50);
        assert_eq!(bar.matches('#').count(), cells as usize);
    }
}

#[test]
fn progress_line_has_bar_and_aligned_percentage() {
    assert_eq!(Progress::update(0, 4).line(), format!("[{}]   0%", " ".repeat(50)));
    assert_eq!(
        Progress::update(1, 4).line(),
        format!("[{}{}]  25%", "#".repeat(13), " ".repeat(37))
    );
    assert_eq!(Progress::update(4, 4).line(), format!("[{}] 100%", "#".repeat(50)));
    for completed in 0u64..=40 {
        let progress = Progress::update(completed, 40);
        let fill = progress.fill_cells as usize;
        let expected =
            format!("[{}{}] {:>3}%", "#".repeat(fill), " ".repeat(50 - fill), progress.percentage);
        assert_eq!(progress.line(), expected);
    }
}
