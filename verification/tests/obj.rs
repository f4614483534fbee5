use maasbree::number::{reads_as_number, read_index};
use maasbree::obj::{load_obj, read_position, Face, LoadError, Position};
use maasbree::text::{split_bytes, split_lines};

fn number(field: &[u8]) -> f64 {
    std::str::from_utf8(field).unwrap().parse().unwrap()
}

fn numbers(p: &Position) -> (f64, f64, f64) {
    (number(&p.x), number(&p.y), number(&p.z))
}

fn corners(f: &Face) -> [(f64, f64, f64); 3] {
    [numbers(&f.a), numbers(&f.b), numbers(&f.c)]
}

fn strings(rows: Vec<Vec<u8>>) -> Vec<String> {
    rows.into_iter().map(|r| String::from_utf8(r).unwrap()).collect()
}

#[test]
fn minimal_mesh_loads() {
    let mesh = load_obj(b"v 0 0 0\nv 1 0 0\nv 0 1 0\nf 1 2 3\n").unwrap();
    assert_eq!(mesh.len(), 1);
    assert_eq!(
        corners(&mesh[0]),
        [(0.0, 0.0, 0.0), (1.0, 0.0, 0.0), (0.0, 1.0, 0.0)]
    );
}

#[test]
fn faces_keep_their_order_and_their_vertex_order() {
    let text = b"v 0 0 0\nv 1 0 0\nv 0 1 0\nv 0.5 -0.25 1e-3\nf 3 2 1\nf 4 1 2\n";
    let mesh = load_obj(text).unwrap();
    assert_eq!(mesh.len(), 2);
    assert_eq!(
        corners(&mesh[0]),
        [(0.0, 1.0, 0.0), (1.0, 0.0, 0.0), (0.0, 0.0, 0.0)]
    );
    assert_eq!(
        corners(&mesh[1]),
        [(0.5, -0.25, 0.001), (0.0, 0.0, 0.0), (1.0, 0.0, 0.0)]
    );
    assert_eq!(mesh[1].a.x, b"0.5".to_vec());
    assert_eq!(mesh[1].a.z, b"1e-3".to_vec());
}

#[test]
fn references_use_what_stands_before_the_first_slash() {
    let text = b"v 1 2 3\nv 4 5 6\nv 7 8 9\nf 1/9/9 2//7 3/1\n";
    let mesh = load_obj(text).unwrap();
    assert_eq!(
        corners(&mesh[0]),
        [(1.0, 2.0, 3.0), (4.0, 5.0, 6.0), (7.0, 8.0, 9.0)]
    );
}

#[test]
fn other_lines_are_passed_over() {
    let text = b"# a comment\nvt 0.1 0.2 0.0\nvn 0 0 1\nv 1 2 3\n\ng name\nv 4 5 6\nvt 9 9 9\nv 7 8 9\ns 1\nf 1 2 3\nfoo\nv\nf\n";
    let mesh = load_obj(text).unwrap();
    assert_eq!(mesh.len(), 1);
    assert_eq!(
        corners(&mesh[0]),
        [(1.0, 2.0, 3.0), (4.0, 5.0, 6.0), (7.0, 8.0, 9.0)]
    );
}

#[test]
fn a_face_may_stand_before_its_vertices() {
    let mesh = load_obj(b"f 1 2 3\nv 1 2 3\nv 4 5 6\nv 7 8 9").unwrap();
    assert_eq!(corners(&mesh[0])[2], (7.0, 8.0, 9.0));
}

#[test]
fn extra_fields_are_not_read() {
    let mesh = load_obj(b"v 1 2 3 4 xyz\nf 1 1 1 7 bad\n").unwrap();
    assert_eq!(corners(&mesh[0]), [(1.0, 2.0, 3.0); 3]);
}

#[test]
fn line_endings_with_carriage_return() {
    let mesh = load_obj(b"v 1 2 3\r\nv 4 5 6\r\nf 1 2 1\r\n").unwrap();
    assert_eq!(
        corners(&mesh[0]),
        [(1.0, 2.0, 3.0), (4.0, 5.0, 6.0), (1.0, 2.0, 3.0)]
    );
    assert_eq!(mesh[0].a.z, b"3".to_vec());
}

#[test]
fn empty_text_is_an_empty_mesh() {
    assert_eq!(load_obj(b"").unwrap().len(), 0);
    assert_eq!(load_obj(b"\n\n").unwrap().len(), 0);
    assert_eq!(load_obj(b"v 1 2 3\nv bad\n").unwrap().len(), 0);
}

#[test]
fn face_with_too_few_references() {
    assert_eq!(load_obj(b"v 1 2 3\nf 1 1\n").unwrap_err(), LoadError::MissingField);
    assert_eq!(load_obj(b"v 1 2 3\nf \n").unwrap_err(), LoadError::MissingField);
    assert_eq!(load_obj(b"f 1\n").unwrap_err(), LoadError::MissingField);
}

#[test]
fn vertex_with_too_few_coordinates() {
    assert_eq!(load_obj(b"v 1 2\nf 1 1 1\n").unwrap_err(), LoadError::MissingField);
    assert_eq!(load_obj(b"v 1 2 3\nv \nf 1 2 1\n").unwrap_err(), LoadError::MissingField);
}

#[test]
fn reference_that_is_no_index() {
    for face in ["f a 1 1", "f 1 -1 1", "f 1 1 1.5", "f  1 1 1", "f 1 1 /1", "f 1 + 1", "f 1 1x 1"] {
        let text = format!("v 1 2 3\n{face}\n");
        assert_eq!(load_obj(text.as_bytes()).unwrap_err(), LoadError::BadReference, "{face}");
    }
}

#[test]
fn reference_to_a_vertex_that_is_not_there() {
    for face in ["f 0 1 1", "f 1 3 1", "f 1 1 99999999999999999999999999999", "f 2 2 +3"] {
        let text = format!("v 1 2 3\nv 4 5 6\n{face}\n");
        assert_eq!(load_obj(text.as_bytes()).unwrap_err(), LoadError::UnknownVertex, "{face}");
    }
    assert_eq!(load_obj(b"f 1 1 1\n").unwrap_err(), LoadError::UnknownVertex);
}

#[test]
fn coordinate_that_is_no_number() {
    for vertex in ["v 1 2 x", "v  1 2 3", "v 1,5 2 3", "v 1 2 3e", "v 1 . 3", "v 0x10 2 3"] {
        let text = format!("{vertex}\nf 1 1 1\n");
        assert_eq!(load_obj(text.as_bytes()).unwrap_err(), LoadError::BadNumber, "{vertex}");
    }
}

#[test]
fn first_fault_in_reading_order_counts() {
    assert_eq!(
        load_obj(b"v 1 2 x\nv 1 2 3\nf 2 9 1\nf 1 1 1\n").unwrap_err(),
        LoadError::UnknownVertex
    );
    assert_eq!(
        load_obj(b"v 1 2 x\nv 1 2 3\nf 1 9 a\n").unwrap_err(),
        LoadError::BadNumber
    );
    assert_eq!(
        load_obj(b"v 1 2 x\nv 1 2 3\nf 2 a 1\nf 9\n").unwrap_err(),
        LoadError::BadReference
    );
    assert_eq!(
        load_obj(b"v 1 2 3\nf 1 1 1\nf 1\nf 7 7 7\n").unwrap_err(),
        LoadError::MissingField
    );
}

#[test]
fn plus_sign_before_an_index() {
    let mesh = load_obj(b"v 1 2 3\nv 4 5 6\nf +1 +2 2\n").unwrap();
    assert_eq!(corners(&mesh[0])[1], (4.0, 5.0, 6.0));
}

#[test]
fn read_index_reads_what_the_integer_parser_reads() {
    let fields = [
        "", "+", "-", "0", "1", "7", "10", "+10", "-10", "007", "12a", "a12", "1 ", " 1", "1.0",
        "99", "100", "101", "18446744073709551615", "18446744073709551616", "++1", "+-1", "1+",
        "٣",
    ];
    for field in fields {
        let want = field.parse::<usize>();
        for count in [0usize, 1, 7, 100, usize::MAX] {
            let got = read_index(field.as_bytes(), count);
            match (&want, got) {
                (Ok(k), Ok(Some(g))) => assert!(g == *k && 1 <= *k && *k <= count),
                (Ok(k), Ok(None)) => assert!(*k == 0 || *k > count),
                (Err(e), Ok(None)) => {
                    assert_eq!(*e.kind(), std::num::IntErrorKind::PosOverflow)
                }
                (Err(_), Err(())) => {}
                (w, g) => panic!("{field:?} with {count}: {w:?} against {g:?}"),
            }
        }
    }
    assert_eq!(read_index(b"18446744073709551615", usize::MAX), Ok(Some(usize::MAX)));
}

#[test]
fn reads_as_number_accepts_what_the_real_parser_accepts() {
    let fields = [
        "0", "1", "-1", "+1", "1.", ".5", "-.5", "1.5", "1e5", "1E5", "1e+5", "1e-5", "1.e5",
        ".5e5", "-0.000581696", "0.734665", "1e", "e5", ".", "", "+", "-", "+.", "1e+", "1e5.0",
        "1.2.3", "1,5", " 1", "1 ", "0x10", "1_000", "inf", "+inf", "-inf", "INF", "iNf",
        "infinity", "-Infinity", "INFINITY", "infinit", "infinityy", "in", "nan", "NaN", "-nan",
        "+NAN", "nana", "na", "1e400", "1e-400", "00012", "--1", "+-1", "1f", "1d", "e", "E",
        "1ee5", "1e5e5", "٣",
    ];
    for field in fields {
        assert_eq!(reads_as_number(field.as_bytes()), field.parse::<f64>().is_ok(), "{field:?}");
    }
}

#[test]
fn reads_as_number_on_every_short_text() {
    let letters = b"+-.eE0.9inNfaty ";
    let mut field: Vec<u8> = Vec::new();
    let mut counters = [0usize; 5];
    for len in 0..=5 {
        field.resize(len, 0);
        counters = [0; 5];
        loop {
            for i in 0..len {
                field[i] = letters[counters[i]];
            }
            let text = std::str::from_utf8(&field).unwrap();
            assert_eq!(reads_as_number(&field), text.parse::<f64>().is_ok(), "{text:?}");
            let mut i = 0;
            while i < len {
                counters[i] += 1;
                if counters[i] < letters.len() {
                    break;
                }
                counters[i] = 0;
                i += 1;
            }
            if i == len {
                break;
            }
        }
    }
    assert_eq!(counters, [0; 5]);
}

#[test]
fn reads_as_number_on_the_long_words() {
    for word in ["infinity", "INFINITY", "Infinity", "+infinity", "-iNfInItY", "infinitx", "xnfinity"] {
        assert_eq!(reads_as_number(word.as_bytes()), word.parse::<f64>().is_ok(), "{word}");
    }
}

#[test]
fn read_position_reads_three_fields() {
    let p = read_position(b"v -0.5 1e3 inf").unwrap();
    assert_eq!(numbers(&p), (-0.5, 1000.0, f64::INFINITY));
    assert_eq!(read_position(b"v 1 2").unwrap_err(), LoadError::MissingField);
    assert_eq!(read_position(b"v 1 2 ").unwrap_err(), LoadError::BadNumber);
    assert_eq!(read_position(b"v 1 2 3 ").map(|p| p.z).unwrap(), b"3".to_vec());
}

#[test]
fn split_bytes_keeps_empty_pieces() {
    assert_eq!(strings(split_bytes(b"a b  c", b' ')), vec!["a", "b", "", "c"]);
    assert_eq!(strings(split_bytes(b"", b' ')), vec![""]);
    assert_eq!(strings(split_bytes(b" ", b' ')), vec!["", ""]);
    assert_eq!(strings(split_bytes(b"1/2/3", b'/')), vec!["1", "2", "3"]);
    assert_eq!(strings(split_bytes(b"12", b'/')), vec!["12"]);
    assert_eq!(strings(split_bytes(b"/12/", b'/')), vec!["", "12", ""]);
}

#[test]
fn split_lines_reads_lines_as_the_standard_reader_does() {
    for text in [
        "", "a", "a\n", "a\nb", "a\nb\n", "\n", "\n\n", "a\r\nb\r\n", "a\r", "a\r\n", "\r\n",
        "a\r\r\n", "a\n\rb", "\r", "a\n\n\nb", "a\rb\n",
    ] {
        let want: Vec<String> = text.lines().map(|l| l.to_string()).collect();
        assert_eq!(strings(split_lines(text.as_bytes())), want, "{text:?}");
    }
}
