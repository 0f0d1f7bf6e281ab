use mule_engine::retry::{pick_retry, sweep, RetryCandidate};

fn waiting(priorities: &[u8]) -> Vec<RetryCandidate> {
    priorities
        .iter()
        .map(|p| RetryCandidate {
            priority: *p,
            last: 0,
        })
        .collect()
}

#[test]
fn the_idle_retry_sweep_rotates_instead_of_starving() {
    let names = ["a", "b", "c", "d", "e", "f"];
    let mut ds = waiting(&[1; 6]);
    let picked: Vec<&str> = (1..=6).map(|t| names[sweep(&mut ds, t).unwrap()]).collect();
    assert_eq!(
        picked,
        vec!["a", "b", "c", "d", "e", "f"],
        "every download must get a turn"
    );
    assert_eq!(names[sweep(&mut ds, 7).unwrap()], "a", "rotation wraps");

    let names = ["high1", "high2", "normal"];
    let mut ds = waiting(&[2, 2, 1]);
    assert_eq!(names[sweep(&mut ds, 1).unwrap()], "high1");
    assert_eq!(
        names[sweep(&mut ds, 2).unwrap()],
        "high2",
        "the other High goes next, not High1 again"
    );
    assert_eq!(
        names[sweep(&mut ds, 3).unwrap()],
        "high1",
        "then back round the High tier"
    );
}

#[test]
fn a_sweep_of_nothing_picks_nothing() {
    let mut none: Vec<RetryCandidate> = Vec::new();
    assert_eq!(pick_retry(&none), None);
    assert_eq!(sweep(&mut none, 9), None);
    assert!(none.is_empty());
}
