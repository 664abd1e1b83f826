use http_handler::predicates::{among, ch, not, range};
use http_handler::misc::{
    self, asci_digit, gather, join_pair, parse_hex, parse_u16, parse_u8, CowText, ParseIntError, SliceError, Span,
};

fn span(start: usize, end: usize) -> Span {
    Span { start, end }
}

#[test]
fn join_slice() {
    // "HTTP" stands at 0..4.
    assert_eq!(misc::join_slice(span(0, 2), span(2, 4)), Ok(span(0, 4)));
    assert_eq!(misc::join_slice(span(0, 0), span(2, 4)), Ok(span(2, 4)));
    assert_eq!(misc::join_slice(span(0, 2), span(0, 0)), Ok(span(0, 2)));
}

#[test]
fn join_vec() {
    let vec = vec![span(0, 2), span(2, 4)];
    assert_eq!(misc::join_vec(vec), Ok(span(0, 4)));
}

#[test]
fn reduce_vec() {
    // The input is "HTTP-abc": "HTTP" at 0..4 and "abc" apart from it at 5..8.
    let vec = vec![span(0, 2), span(2, 4)];
    assert_eq!(misc::reduce_vec(vec), Ok(span(0, 4)));
    let vec2 = vec![span(0, 2), span(2, 4), span(5, 8)];
    assert_eq!(misc::reduce_vec(vec2), Err(vec![span(0, 4), span(5, 8)]));
    let vec3 = vec![span(0, 2), span(5, 8), span(2, 4)];
    assert_eq!(misc::reduce_vec(vec3), Err(vec![span(0, 2), span(5, 8), span(2, 4)]));
    let vec4 = vec![span(5, 8), span(0, 2), span(2, 4)];
    assert_eq!(misc::reduce_vec(vec4), Err(vec![span(5, 8), span(0, 4)]));
}

#[test]
fn to_cow_str() {
    let input = b"HTTP-abc";
    let vec = vec![span(0, 2), span(2, 4)];
    let cow = misc::to_cow_str(&input[..], vec).unwrap();
    match cow {
        CowText::Borrowed(borrow) => assert_eq!(&input[borrow.start..borrow.end], &b"HTTP"[..]),
        _ => panic!(),
    }

    let vec3 = vec![span(0, 2), span(5, 8), span(2, 4)];
    let cow3 = misc::to_cow_str(&input[..], vec3).unwrap();
    match cow3 {
        CowText::Owned(owned) => assert_eq!(owned, "HTabcTP"),
        _ => panic!(),
    }
}

#[test]
fn to_cow_str_rejects_invalid_utf8() {
    let input = [0x48u8, 0xff, 0x48];
    assert!(misc::to_cow_str(&input[..], vec![span(0, 3)]).is_err());
    assert!(misc::to_cow_str(&input[..], vec![span(0, 1), span(2, 3)]).is_ok());
}

#[test]
fn join_pair_refuses_slices_apart() {
    assert_eq!(join_pair((span(0, 2), span(3, 4))), Err(SliceError::NotAdjacent));
    assert_eq!(join_pair((span(1, 2), span(2, 5))), Ok(span(1, 5)));
}

#[test]
fn to_string_concatenates() {
    let input = b"HTTP-abc";
    assert_eq!(misc::to_string(&input[..], &vec![span(5, 8), span(0, 4)]), Ok("abcHTTP".to_string()));
    assert_eq!(gather(&input[..], &vec![span(1, 3), span(6, 8)]), b"TTbc".to_vec());
}

#[test]
fn numbers() {
    assert_eq!(asci_digit(&b"7"[..]), 7);
    assert_eq!(parse_u8("255"), Ok(255));
    assert_eq!(parse_u8("256"), Err(ParseIntError::Overflow));
    assert_eq!(parse_u8(""), Err(ParseIntError::Empty));
    assert_eq!(parse_u8("+"), Err(ParseIntError::InvalidDigit));
    assert_eq!(parse_u8("1a"), Err(ParseIntError::InvalidDigit));
    assert_eq!(parse_u16("+200"), Ok(200));
    assert_eq!(parse_u16("65535"), Ok(65535));
    assert_eq!(parse_u16("65536"), Err(ParseIntError::Overflow));
    assert_eq!(parse_hex("E"), Ok(14));
    assert_eq!(parse_hex("ffffffffffffffff"), Ok(u64::MAX));
    assert_eq!(parse_hex("10000000000000000"), Err(ParseIntError::Overflow));
}

#[test]
fn predicates_test_bytes() {
    let tchar_symbols = among("!#$%&'*+-.^_`|~");
    assert!(tchar_symbols.test(b'~'));
    assert!(!tchar_symbols.test(b'a'));
    assert!(range(0x21, 0x7e).test(b'a'));
    assert!(!range(0x21, 0x7e).test(b' '));
    assert!(ch(b' ').test(b' '));
    assert!(not(ch(b' ')).test(b'x'));
    assert!(!not(ch(b' ')).test(b' '));
}
