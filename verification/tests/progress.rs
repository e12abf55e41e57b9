use koe::progress::{Progress, PROGRESS_WIDTH};

fn bar(label: &str, percent: i32) -> String {
    let filled = PROGRESS_WIDTH * percent as usize / 100;
    format!(
        "\r{} [{}{}] {percent:>3}%",
        label,
        "\u{2588}".repeat(filled),
        "\u{00b7}".repeat(PROGRESS_WIDTH - filled),
    )
}

#[test]
fn every_percentage_is_drawn() {
    let mut progress = Progress::new("transcribing", true);
    for percent in 0..=100 {
        assert_eq!(progress.set(percent).unwrap(), bar("transcribing", percent));
        assert_eq!(progress.set(percent), None);
    }
}

#[test]
fn half_is_half_a_bar() {
    let mut progress = Progress::new("x", true);
    assert_eq!(
        progress.set(50).unwrap(),
        "\rx [████████████████················]  50%"
    );
}

#[test]
fn percentages_are_clamped() {
    let mut progress = Progress::new("x", true);
    assert_eq!(progress.set(-5).unwrap(), bar("x", 0));
    assert_eq!(progress.set(i32::MIN), None);
    assert_eq!(progress.set(250).unwrap(), bar("x", 100));
    assert_eq!(progress.set(100), None);
    assert_eq!(progress.set(i32::MAX), None);
    assert_eq!(progress.set(3).unwrap(), bar("x", 3));
}

#[test]
fn a_disabled_bar_is_inert() {
    let mut progress = Progress::new("x", false);
    assert_eq!(progress.set(10), None);
    assert_eq!(progress.finish(), None);
    assert_eq!(progress.shown, -1);
}

#[test]
fn finishing_clears_the_line() {
    let mut progress = Progress::new("x", true);
    assert_eq!(progress.finish().unwrap(), "\r\u{1b}[2K");
}

#[test]
fn all_bars_have_one_length() {
    let mut progress = Progress::new("会議", true);
    for percent in 0..=100 {
        assert_eq!(progress.set(percent).unwrap().chars().count(), 2 + 32 + 9);
    }
}
