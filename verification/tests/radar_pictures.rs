use sonar_vision::occupancy::{CellState, OccupancyGrid};
use sonar_vision::radar::{
    join_rows, map_picture, ramp_glyph, state_glyph, sweep_picture, track_glyph, tracks_picture,
};

fn lines(text: &[u8]) -> Vec<String> {
    String::from_utf8(text.to_vec()).unwrap().split('\n').map(|s| s.to_string()).collect()
}

#[test]
fn radar_sweep_has_crosshairs_and_centre() {
    let text = sweep_picture(41, 21, &vec![], &vec![]);
    let rows = lines(&text);
    assert_eq!(rows.len(), 21);
    assert!(rows.iter().all(|r| r.len() == 41));
    assert_eq!(rows[10].as_bytes()[20], b'+');
    assert_eq!(rows[10].as_bytes()[0], b'.');
    assert_eq!(rows[0].as_bytes()[20], b'.');
    assert_eq!(rows[0].as_bytes()[0], b' ');
    assert!(String::from_utf8(text).unwrap().contains('+'));
}

#[test]
fn radar_sweep_plots_rings_and_blips_in_order() {
    let rings = vec![(1isize, 1isize), (-1, 0), (3, 9), (0, 0)];
    let blips = vec![(1isize, 1isize, 9usize), (4, 3, 2), (4, 3, 100), (0, 9, 0)];
    let text = sweep_picture(5, 4, &rings, &blips);
    assert_eq!(
        lines(&text),
        vec![". .  ", " @.  ", "..+..", "  . @"]
    );
}

#[test]
fn radar_ramp_and_track_glyphs() {
    let ramp: Vec<u8> = (0..10).map(ramp_glyph).collect();
    assert_eq!(ramp, b" .:-=+*#%@".to_vec());
    assert_eq!(ramp_glyph(42), b'@');
    assert_eq!(track_glyph(0), b'0');
    assert_eq!(track_glyph(7), b'7');
    assert_eq!(track_glyph(10), b'*');
    assert_eq!(state_glyph(CellState::Unknown), b' ');
    assert_eq!(state_glyph(CellState::Free), b'.');
    assert_eq!(state_glyph(CellState::Occupied), b'#');
}

#[test]
fn radar_tracks_picture_marks_tracks() {
    let text = tracks_picture(41, 21, &vec![(24isize, 8isize, 1usize), (100, 100, 2), (0, 0, 12)]);
    let rows = lines(&text);
    assert_eq!(rows.len(), 21);
    assert!(rows.iter().all(|r| r.len() == 41));
    assert_eq!(rows[8].as_bytes()[24], b'1');
    assert_eq!(rows[0].as_bytes()[0], b'*');
    assert_eq!(rows[10].as_bytes()[20], b'+');
    assert!(!String::from_utf8(text).unwrap().contains('2'));
}

#[test]
fn radar_map_picture_summarises_blocks() {
    let mut grid = OccupancyGrid::new(4, 4);
    grid.set(0, 0, CellState::Occupied);
    grid.set(1, 1, CellState::Free);
    grid.set(3, 3, CellState::Free);
    let text = map_picture(&grid, &vec![(0, 2), (2, 4)], &vec![(0, 2), (2, 4)]);
    assert_eq!(String::from_utf8(text).unwrap(), "# \n .");
    let empty = map_picture(&grid, &vec![], &vec![(0, 4)]);
    assert!(empty.is_empty());
}

#[test]
fn radar_join_rows_uses_newlines() {
    assert_eq!(join_rows(&vec![b"ab".to_vec(), b"c".to_vec()]), b"ab\nc".to_vec());
    assert_eq!(join_rows(&vec![]), Vec::<u8>::new());
    assert_eq!(join_rows(&vec![vec![], vec![]]), b"\n".to_vec());
}

#[test]
fn radar_sweep_glyphs_and_centre() {
    let rings: Vec<(isize, isize)> = (0..41).map(|k| (k as isize, (k % 21) as isize)).collect();
    let blips: Vec<(isize, isize, usize)> = (0..30).map(|k| (k as isize, 3, k as usize)).collect();
    let text = sweep_picture(41, 21, &rings, &blips);
    let ramp = b" .:-=+*#%@";
    assert!(text.iter().all(|b| *b == b'\n' || ramp.contains(b)));
    assert_eq!(lines(&text)[10].as_bytes()[20], b'+');
    let covered = sweep_picture(41, 21, &vec![], &vec![(20, 10, 4)]);
    assert_eq!(lines(&covered)[10].as_bytes()[20], b'=');
}
