use raytracer::pass::row_reports;
use raytracer::{FramePass, Progress, Rgb};

fn grey(level: u8) -> Rgb {
    Rgb::new(level, level, level)
}

#[test]
fn pass_walks_rows_from_the_bottom_and_columns_from_the_left() {
    let mut pass = FramePass::begin(3, 2, 4).unwrap();
    assert_eq!(pass.width(), 3);
    assert_eq!(pass.height(), 2);
    assert_eq!(pass.samples_per_pixel(), 4);
    let mut order = Vec::new();
    while let Some(position) = pass.next_pixel() {
        order.push(position);
        pass.put(grey(order.len() as u8));
    }
    assert_eq!(order, vec![(0, 0), (1, 0), (2, 0), (0, 1), (1, 1), (2, 1)]);
    assert!(pass.is_complete());
    let frame = pass.finish().ok().unwrap();
    let expected = vec![grey(4), grey(5), grey(6), grey(1), grey(2), grey(3)];
    assert_eq!(*frame.pixels(), expected);
}

#[test]
fn pass_over_a_small_frame_reports_after_every_row() {
    let mut pass = FramePass::begin(2, 3, 1).unwrap();
    let mut reports = Vec::new();
    while pass.next_pixel().is_some() {
        reports.push(pass.put(grey(1)));
    }
    let expected = vec![
        None,
        Some(Progress { row: 0, rows: 3 }),
        None,
        Some(Progress { row: 1, rows: 3 }),
        None,
        Some(Progress { row: 2, rows: 3 }),
    ];
    assert_eq!(reports, expected);
}

#[test]
fn pass_over_a_tall_frame_reports_every_fiftieth_of_the_height() {
    let mut pass = FramePass::begin(1, 150, 1).unwrap();
    let mut rows = Vec::new();
    while pass.next_pixel().is_some() {
        if let Some(progress) = pass.put(grey(1)) {
            assert_eq!(progress.rows, 150);
            rows.push(progress.row);
        }
    }
    let expected: Vec<usize> = (0..150).filter(|row| row % 3 == 0).collect();
    assert_eq!(rows, expected);
    assert_eq!(rows.len(), 50);
}

#[test]
fn row_reports_follows_the_stride() {
    assert!(row_reports(0, 1));
    assert!(row_reports(0, 49));
    assert!(row_reports(48, 49));
    assert!(row_reports(17, 99));
    assert!(row_reports(0, 100));
    assert!(!row_reports(1, 100));
    assert!(row_reports(2, 100));
    assert!(!row_reports(99, 100));
    assert!(row_reports(24, 600));
    assert!(!row_reports(25, 600));
    assert!(row_reports(0, 0));
}

#[test]
fn reports_name_a_row_of_the_frame() {
    let mut pass = FramePass::begin(2, 60, 1).unwrap();
    while pass.next_pixel().is_some() {
        if let Some(progress) = pass.put(grey(1)) {
            assert!(progress.row < progress.rows);
            let fraction = progress.row as f64 / progress.rows as f64;
            assert!((0.0..1.0).contains(&fraction));
        }
    }
}

#[test]
fn complete_pass_takes_no_more_colours() {
    let mut pass = FramePass::begin(1, 1, 1).unwrap();
    assert_eq!(pass.put(grey(7)), Some(Progress { row: 0, rows: 1 }));
    assert!(pass.is_complete());
    assert_eq!(pass.next_pixel(), None);
    assert_eq!(pass.put(grey(9)), None);
    let frame = pass.finish().ok().unwrap();
    assert_eq!(*frame.pixels(), vec![grey(7)]);
}

#[test]
fn finish_hands_an_unfinished_pass_back() {
    let mut pass = FramePass::begin(2, 1, 1).unwrap();
    pass.put(grey(1));
    assert!(!pass.is_complete());
    let mut pass = match pass.finish() {
        Ok(_) => panic!("the pass has a pixel left"),
        Err(pass) => pass,
    };
    assert_eq!(pass.next_pixel(), Some((1, 0)));
    pass.put(grey(2));
    let frame = pass.finish().ok().unwrap();
    assert_eq!(*frame.pixels(), vec![grey(1), grey(2)]);
}

#[test]
fn pass_over_an_empty_frame_is_complete_at_once() {
    let pass = FramePass::begin(0, 5, 1).unwrap();
    assert!(pass.is_complete());
    assert_eq!(pass.next_pixel(), None);
    assert!(pass.finish().is_ok());
    let mut pass = FramePass::begin(5, 0, 1).unwrap();
    assert_eq!(pass.put(grey(1)), None);
    assert!(pass.finish().is_ok());
}

#[test]
fn pass_is_refused_where_the_frame_is() {
    assert!(FramePass::begin(usize::MAX, 2, 1).is_none());
}

#[test]
fn same_colours_give_the_same_frame() {
    let colours: Vec<Rgb> = (0..12u8).map(|i| Rgb::new(i, 2 * i, 3 * i)).collect();
    let mut frames = Vec::new();
    for _ in 0..2 {
        let mut pass = FramePass::begin(4, 3, 2).unwrap();
        for colour in &colours {
            pass.put(*colour);
        }
        frames.push(pass.finish().ok().unwrap());
    }
    assert_eq!(frames[0].pixels(), frames[1].pixels());
    for y in 0..3usize {
        for x in 0..4usize {
            assert_eq!(frames[0].get(x, y), Some(colours[y * 4 + x]));
        }
    }
}
