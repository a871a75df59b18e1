use learning_rust::parsing::{parse_line, parse_lines, parse_packet_line, Coord, Line, Item, Packet};

const SENSORS: &str = "Sensor at x=2, y=18: closest beacon is at x=-2, y=15
Sensor at x=9, y=16: closest beacon is at x=10, y=16
Sensor at x=13, y=2: closest beacon is at x=15, y=3";

const PACKETS: &str = "[]
[[]]
[[[]]]
[1,1,3,1,1]
[1,1,5,1,1]
[[1],[2,3,4]]
[1,[2,[3,[4,[5,6,0]]]],8,9]
[1,[2,[3,[4,[5,6,7]]]],8,9]
[[1],4]
[[2]]
[3]
[[4,4],4,4]
[[4,4],4,4,4]
[[6]]
[7,7,7]
[7,7,7,7]
[[8,7,6]]
[9]";

fn line(sx: i8, sy: i8, bx: i8, by: i8) -> Line {
    Line { sensor: Coord { x: sx, y: sy }, beacon: Coord { x: bx, y: by } }
}

fn render(p: &Packet) -> String {
    String::from_utf8(p.render()).unwrap()
}

#[test]
fn sensor_reports_are_read() {
    let lines = parse_lines(SENSORS).unwrap();
    assert_eq!(lines, vec![line(2, 18, -2, 15), line(9, 16, 10, 16), line(13, 2, 15, 3)]);
}

#[test]
fn empty_text_has_no_reports() {
    assert_eq!(parse_lines("").unwrap(), vec![]);
}

#[test]
fn trailing_newline_is_refused() {
    let text = format!("{SENSORS}\n");
    assert!(parse_lines(&text).is_err());
}

#[test]
fn coordinate_out_of_range_is_refused() {
    assert!(parse_lines("Sensor at x=200, y=18: closest beacon is at x=-2, y=15").is_err());
    assert!(parse_lines("Sensor at x=-129, y=18: closest beacon is at x=-2, y=15").is_err());
}

#[test]
fn coordinate_extremes_and_signs() {
    let lines = parse_lines("Sensor at x=-128, y=+127: closest beacon is at x=0, y=-0").unwrap();
    assert_eq!(lines, vec![line(-128, 127, 0, 0)]);
}

#[test]
fn single_report_leaves_rest() {
    let text = "Sensor at x=1, y=2: closest beacon is at x=3, y=4 and more";
    let (l, end) = parse_line(text.as_bytes(), 0).unwrap();
    assert_eq!(l, line(1, 2, 3, 4));
    assert_eq!(&text[end..], " and more");
    assert!(parse_line(b"Sensor at y=1", 0).is_none());
}

#[test]
fn every_packet_reads_back_as_written() {
    for text in PACKETS.lines() {
        let p = parse_packet_line(text).unwrap();
        assert_eq!(render(&p), text);
    }
}

#[test]
fn packet_items_are_read() {
    let p = parse_packet_line("[[1],4]").unwrap();
    assert_eq!(p.0.len(), 2);
    match &p.0[0] {
        Item::Packet(inner) => {
            assert_eq!(inner.0.len(), 1);
            assert!(matches!(inner.0[0], Item::Value(1)));
        }
        Item::Value(_) => panic!("expected a packet"),
    }
    assert!(matches!(p.0[1], Item::Value(4)));
}

#[test]
fn malformed_packets_are_refused() {
    for text in ["", "[", "[1,", "[1,]", "[,1]", "[256]", "[1]]", "[1] ", "1", "[1,2", "[-1]"] {
        assert!(parse_packet_line(text).is_err(), "{text:?} should be refused");
    }
}

#[test]
fn largest_byte_is_read() {
    let p = parse_packet_line("[255,0,007]").unwrap();
    assert_eq!(render(&p), "[255,0,7]");
}

#[test]
fn rendered_packet_roundtrips() {
    let p = Packet(vec![
        Item::Value(10),
        Item::Packet(Packet(vec![])),
        Item::Packet(Packet(vec![Item::Value(200), Item::Value(3)])),
    ]);
    let text = render(&p);
    assert_eq!(text, "[10,[],[200,3]]");
    assert_eq!(render(&parse_packet_line(&text).unwrap()), text);
}

#[test]
fn canonical_lines_render_back_and_leading_zeros_do_not() {
    for text in ["[1,[2,3],[]]", "[[10,255],0]", "[]"] {
        let p = parse_packet_line(text).ok().unwrap();
        assert_eq!(render(&p), text);
    }
    let p = parse_packet_line("[007,[00]]").ok().unwrap();
    assert_eq!(render(&p), "[7,[0]]");
}
