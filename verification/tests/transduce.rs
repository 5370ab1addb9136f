use bitpack::process;
use bitpack::process_into;

#[test]
fn smoke_1() {
    let input = String::from("0000_0000__1111_1111");
    let writer = process(input.as_bytes());
    assert_eq!(writer, vec![0x00, 0xff]);
}

#[test]
fn smoke_2() {
    let input = String::from(
        r#";; A binary file
00000000_00000001 ;; 0 1
00000010_00000011 ;; 2 3
00000100_00000101 ;; 4 5
00000110_00000111 ;; 6 7
00001000_00001001 ;; 8 9
00001010_00001011 ;; a b
00001100_00001101 ;; c d
00001110_00001111 ;; e f
"#,
    );
    let writer = process(input.as_bytes());
    assert_eq!(
        writer,
        vec![0x0, 0x1, 0x2, 0x3, 0x4, 0x5, 0x6, 0x7, 0x8, 0x9, 0xa, 0xb, 0xc, 0xd, 0xe, 0xf]
    );
}

#[test]
fn comments() {
    let input = String::from("00000001 ;; A comment containing 0 and 1\n00001111");
    let writer = process(input.as_bytes());
    assert_eq!(writer, vec![0x1, 0xf]);
}

#[test]
fn empty_input() {
    assert_eq!(process(b""), Vec::<u8>::new());
}

#[test]
fn only_a_comment() {
    assert_eq!(process(b";; only a comment, no digits\n"), Vec::<u8>::new());
}

#[test]
fn trailing_bits_dropped() {
    assert_eq!(process(b"101"), Vec::<u8>::new());
}

#[test]
fn four_bits_dropped() {
    assert_eq!(process(b"0101"), Vec::<u8>::new());
}

#[test]
fn output_length_exact() {
    // 16 recognized digits pack to exactly 2 bytes.
    assert_eq!(process(b"1000000000000001").len(), 2);
}

#[test]
fn output_length_with_remainder() {
    // 11 recognized digits pack to 1 byte; the trailing 3 are dropped.
    assert_eq!(process(b"10000000111"), vec![0x80]);
}

#[test]
fn bit_order_first_digit_is_high_bit() {
    assert_eq!(process(b"10000000"), vec![0x80]);
}

#[test]
fn bit_order_eighth_digit_is_low_bit() {
    assert_eq!(process(b"00000001"), vec![0x01]);
}

#[test]
fn comment_ends_at_carriage_return() {
    assert_eq!(process(b"11110000;; 1 0 1\r10101010"), vec![0xf0, 0xaa]);
}

#[test]
fn comment_runs_to_end_of_input() {
    assert_eq!(process(b"11111111;trailing 0101"), vec![0xff]);
}

#[test]
fn comment_before_any_digit() {
    assert_eq!(process(b";x\n10000001"), vec![0x81]);
}

#[test]
fn inert_bytes_are_no_ops() {
    let noisy = process(b"1x0y1z0w 1_0-1.0!");
    let plain = process(b"10101010");
    assert_eq!(noisy, plain);
    assert_eq!(noisy, vec![0xaa]);
}

#[test]
fn digits_split_across_lines() {
    assert_eq!(process(b"1111\n0000"), vec![0xf0]);
}

#[test]
fn sixteen_commented_lines() {
    let input = String::from(
        r#"0000_0000 ;; 0
0000_0001 ;; 1
0000_0010 ;; 2
0000_0011 ;; 3
0000_0100 ;; 4
0000_0101 ;; 5
0000_0110 ;; 6
0000_0111 ;; 7
0000_1000 ;; 8
0000_1001 ;; 9
0000_1010 ;; a
0000_1011 ;; b
0000_1100 ;; c
0000_1101 ;; d
0000_1110 ;; e
0000_1111 ;; f
"#,
    );
    let writer = process(input.as_bytes());
    let expected: Vec<u8> = (0u8..16u8).collect();
    assert_eq!(writer, expected);
}

#[test]
fn process_into_appends() {
    let mut sink: Vec<u8> = vec![0xde, 0xad];
    process_into(b"0000_0000__1111_1111", &mut sink);
    assert_eq!(sink, vec![0xde, 0xad, 0x00, 0xff]);
}
