use robodoan::mc4d::order::mc4d_twist_order;
use robodoan::mc4d::scramble::{Mc4dLogError, Mc4dScramble};
use robodoan::mc4d::twist::{mc4d_twist_for_exec, LayeredTwist, Mc4dTwist};
use robodoan::sim::common::twist_names::{parse_twists, twist_names_4d};
use robodoan::sim::common::{all_twists, elements, grips, Elem, Twist};

const VIEW: &str = "1 0 0 0\n0 1 0 0\n0 0 1 0\n0 0 0 1";

fn log_with(header: &str, moves: &str) -> String {
    format!("{header}\n{VIEW}\n*\n{moves}\n")
}

fn header() -> &'static str {
    "MagicCube4D 3 1 7 {4,3,3} 3"
}

#[test]
fn quarter_turn_of_i_is_named_iu() {
    let iu = Twist { grip: grips::I(), transform: elements::XZ() };
    assert_eq!(iu.name(), Some(b"IU".to_vec()));
    assert_eq!(Twist::from_name(b"IU"), Some(iu));
}

#[test]
fn every_twist_has_a_name_that_reads_back() {
    let names = twist_names_4d();
    assert_eq!(names.len(), 1536);
    let twists = all_twists();
    assert_eq!(twists.len(), 184);
    for t in twists {
        let name = t.name().expect("twist without a name");
        assert_eq!(Twist::from_name(&name), Some(t));
    }
    assert_eq!(names.iter().filter(|n| n.is_some()).count(), 184);
}

#[test]
fn unknown_names_are_not_twists() {
    assert_eq!(Twist::from_name(b"XYZ"), None);
    assert_eq!(Twist::from_name(b""), None);
    assert_eq!(Twist::from_name(b"iu"), None);
}

#[test]
fn parse_twists_reads_each_word() {
    let ts = parse_twists(b" IU  IR\tIUR\n");
    assert_eq!(ts.len(), 3);
    assert_eq!(ts[0], Twist::from_name(b"IU").unwrap());
    assert_eq!(ts[1], Twist::from_name(b"IR").unwrap());
    assert_eq!(ts[2], Twist::from_name(b"IUR").unwrap());
    assert_eq!(Twist::from_name(b"QQ"), None);
    assert_eq!(parse_twists(b""), vec![]);
}

#[test]
fn sticker_order_has_a_twist_for_all_but_the_centers() {
    let order = mc4d_twist_order();
    assert_eq!(order.len(), 216);
    for (i, t) in order.iter().enumerate() {
        assert_eq!(t.is_none(), i % 27 == 26, "sticker {i}");
    }
    // Faces in the order I, B, D, L, R, U, F, O.
    let faces = [7u8, 5, 3, 1, 0, 2, 4, 6];
    for (i, t) in order.iter().enumerate() {
        if let Some(t) = t {
            assert_eq!(t.grip.id(), faces[i / 27]);
        }
    }
    // The first ridge sticker of I is the twist IR or its inverse side;
    // the seed twists come back at their own stickers.
    assert!(order.contains(&Twist::from_name(b"IR")));
    assert!(order.contains(&Twist::from_name(b"IUR")));
    assert!(order.contains(&Twist::from_name(b"IUFR")));
}

#[test]
fn every_twist_has_a_log_file_form() {
    let order = mc4d_twist_order();
    for t in all_twists() {
        let m = mc4d_twist_for_exec(&order, t).expect("twist without a log file form");
        let lt = m.to_layered_twist(&order);
        assert_eq!(lt.twist, t);
        assert_eq!(lt.layer_mask, 1);
    }
    let bad = Twist { grip: grips::R(), transform: elements::XY() };
    assert_eq!(mc4d_twist_for_exec(&order, bad), None);
}

#[test]
fn mc4d_twist_reads_three_numbers() {
    assert_eq!(Mc4dTwist::from_bytes(b"12,-1,3"), Some(Mc4dTwist::new(12, -1, 3)));
    assert_eq!(Mc4dTwist::from_bytes(b"+5,+1,7"), Some(Mc4dTwist::new(5, 1, 7)));
    assert_eq!(Mc4dTwist::from_bytes(b"1,-128,255"), Some(Mc4dTwist::new(1, -128, 255)));
    assert_eq!(Mc4dTwist::from_bytes(b"1,2"), None);
    assert_eq!(Mc4dTwist::from_bytes(b"1,2,3,4"), None);
    assert_eq!(Mc4dTwist::from_bytes(b"1,128,1"), None);
    assert_eq!(Mc4dTwist::from_bytes(b"1,-129,1"), None);
    assert_eq!(Mc4dTwist::from_bytes(b"1,1,256"), None);
    assert_eq!(Mc4dTwist::from_bytes(b"-1,1,1"), None);
    assert_eq!(Mc4dTwist::from_bytes(b",1,1"), None);
    assert_eq!(Mc4dTwist::from_bytes(b"a,1,1"), None);
    assert_eq!(Mc4dTwist::from_bytes(b"1,+,1"), None);
}

#[test]
fn mc4d_twist_writes_three_numbers() {
    let mut out = b"x".to_vec();
    Mc4dTwist::new(120, -1, 3).write_to(&mut out);
    assert_eq!(out, b"x120,-1,3".to_vec());
    let mut out = vec![];
    Mc4dTwist::new(0, -128, 255).write_to(&mut out);
    assert_eq!(out, b"0,-128,255".to_vec());
}

#[test]
fn multiplier_repeats_the_twist() {
    let order = mc4d_twist_order();
    let t = order[0].unwrap();
    let twice = Mc4dTwist::new(0, 2, 1).to_layered_twist(&order);
    assert_eq!(twice.twist.transform, t.transform * t.transform);
    let back = Mc4dTwist::new(0, -1, 1).to_layered_twist(&order);
    assert_eq!(back.twist.transform, t.transform.inv());
    let none = Mc4dTwist::new(0, 0, 1).to_layered_twist(&order);
    assert_eq!(none.twist.transform, elements::IDENT());
}

#[test]
fn layered_twist_turns_the_chosen_layers() {
    let t = Twist::from_name(b"IU").unwrap();
    let mut offset = elements::IDENT();
    let own = LayeredTwist { twist: t, layer_mask: 1 }.to_twists(&mut offset);
    assert_eq!(own.as_slice(), &[t]);
    assert_eq!(offset, elements::IDENT());
    let both = LayeredTwist { twist: t, layer_mask: 5 }.to_twists(&mut offset);
    assert_eq!(both.as_slice(), &[t, Twist { grip: grips::O(), transform: t.transform }]);
    // Turning the middle layer turns the whole puzzle: the other two layers
    // turn back, seen from the new orientation.
    let middle = LayeredTwist { twist: t, layer_mask: 2 }.to_twists(&mut offset);
    assert_eq!(middle.len(), 2);
    assert_eq!(offset, t.transform.inv());
    let mut offset = elements::IDENT();
    let all = LayeredTwist { twist: t, layer_mask: 7 }.to_twists(&mut offset);
    assert_eq!(all.len(), 0);
    assert_eq!(offset, t.transform.inv());
}

#[test]
fn log_file_is_read() {
    let text = log_with(header(), "0,1,1 1,1,1.");
    let s = Mc4dScramble::from_bytes(text.as_bytes()).unwrap();
    let order = mc4d_twist_order();
    assert_eq!(s.scramble(), &[order[0].unwrap(), order[1].unwrap()]);
}

#[test]
fn log_file_errors() {
    let err = |text: &str| Mc4dScramble::from_bytes(text.as_bytes()).err();
    assert_eq!(err(""), Some(Mc4dLogError::MissingHeader));
    assert_eq!(err("m| 1,1,1"), Some(Mc4dLogError::MissingHeader));
    assert_eq!(err(&log_with("Foo 3 1 7 {4,3,3} 3", "")), Some(Mc4dLogError::BadHeader));
    assert_eq!(err(&log_with("MagicCube4D 3 1 7 {4,3,3}", "")), Some(Mc4dLogError::BadHeader));
    assert_eq!(err(&log_with("MagicCube4D 2 1 7 {4,3,3} 3", "")), Some(Mc4dLogError::UnsupportedLogVersion));
    assert_eq!(err(&log_with("MagicCube4D 3 1 7 {5,3,3} 3", "")), Some(Mc4dLogError::UnsupportedPuzzle));
    assert_eq!(err(&log_with("MagicCube4D 3 1 7 {4,3,3} 4", "")), Some(Mc4dLogError::UnsupportedPuzzle));
    assert_eq!(err(&format!("{}\n{VIEW}\n+\n0,1,1\n", header())), Some(Mc4dLogError::MissingSeparator));
    assert_eq!(err(&format!("{}\n{VIEW}", header())), Some(Mc4dLogError::MissingSeparator));
    assert_eq!(err(&log_with(header(), "0,1,1 oops")), Some(Mc4dLogError::BadMove));
    assert_eq!(err(&log_with(header(), "26,1,1")), Some(Mc4dLogError::BadTwist));
    assert_eq!(err(&log_with(header(), "216,1,1")), Some(Mc4dLogError::BadTwist));
}

#[test]
fn solution_after_marker_is_ignored() {
    let text = log_with(header(), "0,1,1 m| 5,1,1 oops.");
    let s = Mc4dScramble::from_bytes(text.as_bytes()).unwrap();
    assert_eq!(s.scramble().len(), 1);
}

#[test]
fn log_file_is_written_back() {
    let text = log_with(header(), "0,1,1 1,1,1.");
    let s = Mc4dScramble::from_bytes(text.as_bytes()).unwrap();
    let out = s.to_string(false, vec![]).unwrap();
    let expected = format!("MagicCube4D 3 1 0 {{4,3,3}} 3\n{VIEW}\n*\n0,1,1 1,1,1 m|.");
    assert_eq!(String::from_utf8(out).unwrap(), expected);
}

#[test]
fn solution_is_written_after_the_marker() {
    let order = mc4d_twist_order();
    let text = log_with(header(), "0,1,1");
    let s = Mc4dScramble::from_bytes(text.as_bytes()).unwrap();
    let t = order[0].unwrap();
    let out = s.to_string(true, vec![t.inv()]).unwrap();
    let out = String::from_utf8(out).unwrap();
    assert!(out.starts_with("MagicCube4D 3 3 1 {4,3,3} 3\n"));
    let expected_twist = mc4d_twist_for_exec(&order, t.inv()).unwrap();
    let mut tail = b" m| ".to_vec();
    expected_twist.write_to(&mut tail);
    tail.push(b'.');
    assert!(out.ends_with(std::str::from_utf8(&tail).unwrap()));
}

#[test]
fn twists_without_a_log_file_form_are_refused() {
    let text = log_with(header(), "0,1,1");
    let s = Mc4dScramble::from_bytes(text.as_bytes()).unwrap();
    let bad = Twist { grip: grips::R(), transform: elements::XY() };
    assert_eq!(s.to_string(true, vec![bad]), None);
}

#[test]
fn eleven_twists_wrap_after_ten() {
    let moves = vec!["0,1,1"; 11].join(" ");
    let text = log_with(header(), &moves);
    let s = Mc4dScramble::from_bytes(text.as_bytes()).unwrap();
    let out = String::from_utf8(s.to_string(false, vec![]).unwrap()).unwrap();
    let body = out.split("*").nth(1).unwrap();
    assert_eq!(body, format!("\n{}\n0,1,1 m|.", vec!["0,1,1"; 10].join(" ")));
}

#[test]
fn middle_slice_twists_turn_the_puzzle() {
    let text = log_with(header(), "0,1,2");
    let s = Mc4dScramble::from_bytes(text.as_bytes()).unwrap();
    assert_eq!(s.scramble().len(), 2);
    let text = log_with(header(), "0,1,7");
    let s = Mc4dScramble::from_bytes(text.as_bytes()).unwrap();
    assert_eq!(s.scramble().len(), 0);
    let _ = Elem::new(0);
}

#[test]
fn mc4d_twist_reads_back_as_written() {
    for &(s, m, l) in &[(0usize, 0i8, 0u8), (215, -128, 255), (7, 127, 4), (100, -1, 2), (usize::MAX, 1, 1)] {
        let t = Mc4dTwist::new(s, m, l);
        let mut out = vec![];
        t.write_to(&mut out);
        assert_eq!(Mc4dTwist::from_bytes(&out), Some(t));
    }
}

#[test]
fn written_log_reads_back() {
    let text = log_with(header(), "0,1,1 13,-1,2 100,2,5 200,1,4");
    let s = Mc4dScramble::from_bytes(text.as_bytes()).unwrap();
    let order = mc4d_twist_order();
    let t = order[5].unwrap();
    let out = s.to_string(true, vec![t, t.inv()]).unwrap();
    let again = Mc4dScramble::from_bytes(&out).unwrap();
    assert_eq!(again.scramble(), s.scramble());
    let rewritten = again.to_string(true, vec![t, t.inv()]).unwrap();
    assert_eq!(rewritten, out);
}

#[test]
fn twist_names_read_back_to_their_twists() {
    let ts = all_twists();
    let mut text: Vec<u8> = Vec::new();
    for t in &ts {
        let name = t.name().unwrap();
        let u = Twist::from_name(&name).unwrap();
        assert_eq!(u, *t);
        assert_eq!(u.name(), Some(name.clone()));
        if !text.is_empty() {
            text.push(b' ');
        }
        text.extend_from_slice(&name);
    }
    assert_eq!(parse_twists(&text), ts);
}

#[test]
fn words_are_split_at_unicode_whitespace() {
    let ts = parse_twists("IU\u{a0}IR\u{3000}IUR\u{2009}".as_bytes());
    assert_eq!(ts.len(), 3);
    assert_eq!(ts[0], Twist::from_name(b"IU").unwrap());
    assert_eq!(ts[1], Twist::from_name(b"IR").unwrap());
    assert_eq!(ts[2], Twist::from_name(b"IUR").unwrap());
    let text = log_with("MagicCube4D\u{a0}3 1 7\u{85}{4,3,3} 3", "0,1,1\u{2028}1,1,1.");
    let s = Mc4dScramble::from_bytes(text.as_bytes()).unwrap();
    let order = mc4d_twist_order();
    assert_eq!(s.scramble(), &[order[0].unwrap(), order[1].unwrap()]);
    // `©` shares its first byte with U+00A0 and is no whitespace.
    assert_eq!(Twist::from_name("IU\u{a9}".as_bytes()), None);
    let text = log_with(header(), "0,1,1\u{a9}");
    assert_eq!(Mc4dScramble::from_bytes(text.as_bytes()).err(), Some(Mc4dLogError::BadMove));
}
