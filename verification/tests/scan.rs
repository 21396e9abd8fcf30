use quantizr::scan::scan_step;

#[test]
fn first_row_runs_forward() {
    let s = scan_step(5, 0, 0);
    assert_eq!((s.x, s.point, s.behind, s.here, s.ahead), (0, 0, 0, 1, 2));
    let s = scan_step(5, 0, 4);
    assert_eq!((s.x, s.point, s.behind, s.here, s.ahead), (4, 4, 4, 5, 6));
}

#[test]
fn second_row_runs_backward() {
    let s = scan_step(5, 1, 0);
    assert_eq!((s.x, s.point, s.behind, s.here, s.ahead), (4, 9, 6, 5, 4));
    let s = scan_step(5, 1, 4);
    assert_eq!((s.x, s.point, s.behind, s.here, s.ahead), (0, 5, 2, 1, 0));
}

#[test]
fn third_row_runs_forward_again() {
    let s = scan_step(5, 2, 1);
    assert_eq!((s.x, s.point), (1, 11));
}

#[test]
fn scan_visits_every_pixel_once() {
    let (w, h) = (7usize, 5usize);
    let mut seen = vec![0u32; w * h];
    for y in 0..h {
        for xx in 0..w {
            let s = scan_step(w, y, xx);
            assert!(s.ahead < w + 2 && s.behind < w + 2 && s.here < w + 2);
            seen[s.point] += 1;
        }
    }
    assert!(seen.iter().all(|&c| c == 1));
}

#[test]
fn error_ahead_reaches_next_pixel() {
    let w = 6usize;
    for y in 0..3 {
        for xx in 0..w - 1 {
            assert_eq!(scan_step(w, y, xx).ahead, scan_step(w, y, xx + 1).here);
        }
    }
}
