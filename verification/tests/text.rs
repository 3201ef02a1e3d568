use rpack::bits::{bits_to_bytes, message_bits};
use rpack::text::binary_to_text;

#[test]
fn bits_most_significant_first() {
    assert_eq!(message_bits(&[0b1010_0001]), vec![1, 0, 1, 0, 0, 0, 0, 1]);
    assert_eq!(bits_to_bytes(&[1, 0, 1, 0, 0, 0, 0, 1, 1, 1]), vec![0b1010_0001]);
    let text = b"MEOW MEOW MEOW!!";
    assert_eq!(bits_to_bytes(&message_bits(text)), text.to_vec());
}

#[test]
fn binary_digits_to_text() {
    assert_eq!(binary_to_text("0100110101000101".to_string()), "ME");
    // a short last chunk is padded with zeros on the right
    assert_eq!(binary_to_text("010011010100".to_string()), "M@");
    // a chunk that is no binary number counts as zero
    assert_eq!(binary_to_text("0100110x".to_string()), "\0");
    // a leading plus sign is accepted, as a number parser accepts it
    assert_eq!(binary_to_text("+1000001".to_string()), "A");
    assert_eq!(binary_to_text(String::new()), "");
    assert_eq!(binary_to_text("11111111".to_string()), "\u{ff}");
}
