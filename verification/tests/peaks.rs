use resonate::peaks::find_peaks;

fn flat(rows: usize, cols: usize, value: u32) -> Vec<Vec<u32>> {
    vec![vec![value; cols]; rows]
}

#[test]
fn a_lone_maximum_is_a_peak() {
    let mut g = flat(3, 3, 1);
    g[1][1] = 9;
    assert_eq!(find_peaks(g, 5), vec![(1usize, 1usize)]);
}

#[test]
fn a_maximum_under_the_threshold_is_no_peak() {
    let mut g = flat(3, 3, 1);
    g[1][1] = 9;
    assert!(find_peaks(g, 10).is_empty());
}

#[test]
fn the_threshold_itself_is_reached() {
    let mut g = flat(3, 3, 1);
    g[1][1] = 9;
    assert_eq!(find_peaks(g, 9), vec![(1usize, 1usize)]);
}

#[test]
fn a_tie_with_a_neighbour_is_no_peak() {
    for (dt, df) in [(0usize, 0usize), (0, 1), (0, 2), (1, 0), (1, 2), (2, 0), (2, 1), (2, 2)] {
        let mut g = flat(3, 3, 1);
        g[1][1] = 9;
        g[dt][df] = 9;
        assert!(find_peaks(g, 5).is_empty());
    }
}

#[test]
fn a_plateau_has_no_peak() {
    let mut g = flat(5, 5, 0);
    g[2][2] = 7;
    g[2][3] = 7;
    assert!(find_peaks(g, 1).is_empty());
}

#[test]
fn cells_on_the_border_are_no_peaks() {
    let mut g = flat(4, 4, 1);
    g[0][0] = 9;
    g[0][2] = 9;
    g[3][1] = 9;
    g[2][3] = 9;
    g[1][0] = 9;
    assert!(find_peaks(g, 5).is_empty());
}

#[test]
fn peaks_come_in_row_major_order() {
    let mut g = flat(6, 7, 1);
    g[4][1] = 50;
    g[1][5] = 20;
    g[1][2] = 30;
    g[3][3] = 40;
    assert_eq!(find_peaks(g, 10), vec![(1usize, 2usize), (1, 5), (3, 3), (4, 1)]);
}

#[test]
fn small_tables_have_no_peaks() {
    assert!(find_peaks(Vec::new(), 0).is_empty());
    assert!(find_peaks(flat(1, 5, 3), 0).is_empty());
    assert!(find_peaks(flat(2, 5, 3), 0).is_empty());
    assert!(find_peaks(vec![vec![1, 9], vec![9, 1], vec![1, 9]], 0).is_empty());
    assert!(find_peaks(vec![Vec::new(), Vec::new(), Vec::new()], 0).is_empty());
}

#[test]
fn a_flat_table_has_no_peaks() {
    assert!(find_peaks(flat(10, 10, 0), 0).is_empty());
    assert!(find_peaks(flat(10, 10, 77), 0).is_empty());
}

#[test]
fn peaks_lie_off_the_border() {
    let rows = 12usize;
    let cols = 9usize;
    let mut g = flat(rows, cols, 0);
    for t in 0..rows {
        for f in 0..cols {
            g[t][f] = ((t * 31 + f * 17) % 23) as u32 * ((t + f) % 5) as u32;
        }
    }
    let peaks = find_peaks(g.clone(), 1);
    assert!(!peaks.is_empty());
    for (t, f) in peaks {
        assert!(t >= 1 && t <= rows - 2);
        assert!(f >= 1 && f <= cols - 2);
        for dt in 0..3usize {
            for df in 0..3usize {
                if dt != 1 || df != 1 {
                    assert!(g[t + dt - 1][f + df - 1] < g[t][f]);
                }
            }
        }
    }
}

#[test]
fn neighbouring_maxima_of_different_height_leave_the_higher() {
    let mut g = flat(5, 5, 0);
    g[2][2] = 7;
    g[2][3] = 8;
    assert_eq!(find_peaks(g, 1), vec![(2usize, 3usize)]);
}
