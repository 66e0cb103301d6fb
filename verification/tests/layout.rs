use scrabble::util::layout::grid_text;

#[test]
fn grid_text_lays_out_headers_and_rows() {
    let mut cells: Vec<String> = Vec::new();
    for i in 0..225 {
        cells.push(if i == 16 { " x ".to_string() } else { "   ".to_string() });
    }
    let text = grid_text(&cells);
    let header = "    A  B  C  D  E  F  G  H  I  J  K  L  M  N  O ";
    let lines: Vec<&str> = text.split('\n').collect();
    assert_eq!(lines.len(), 17);
    assert_eq!(lines[0], header);
    assert_eq!(lines[16], header);
    assert_eq!(lines[1], format!(" 0 {} 0 ", "   ".repeat(15)));
    assert_eq!(lines[2], format!(" 1 {} x {} 1 ", "   ", "   ".repeat(13)));
    assert_eq!(lines[11], format!("10 {} 10", "   ".repeat(15)));
    assert_eq!(lines[15], format!("14 {} 14", "   ".repeat(15)));
}
