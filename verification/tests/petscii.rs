use d64::PetsciiString;
use d64::decode_petscii;
use d64::encode_petscii;
use d64::PETSCII_A;
use d64::PETSCII_EIGHT;
use d64::PETSCII_FIVE;
use d64::PETSCII_FOUR;
use d64::PETSCII_I;
use d64::PETSCII_J;
use d64::PETSCII_NBSP;
use d64::PETSCII_NINE;
use d64::PETSCII_ONE;
use d64::PETSCII_SEVEN;
use d64::PETSCII_SIX;
use d64::PETSCII_THREE;
use d64::PETSCII_TWO;
use d64::PETSCII_Z;
use d64::PETSCII_ZERO;

#[test]
fn decode_letters_and_digits() {
    assert_eq!(decode_petscii(PETSCII_A), 'A');
    assert_eq!(decode_petscii(PETSCII_J), 'J');
    assert_eq!(decode_petscii(PETSCII_Z), 'Z');
    assert_eq!(decode_petscii(PETSCII_ZERO), '0');
    assert_eq!(decode_petscii(PETSCII_ONE), '1');
    assert_eq!(decode_petscii(PETSCII_TWO), '2');
    assert_eq!(decode_petscii(PETSCII_THREE), '3');
    assert_eq!(decode_petscii(PETSCII_FOUR), '4');
    assert_eq!(decode_petscii(PETSCII_FIVE), '5');
    assert_eq!(decode_petscii(PETSCII_SIX), '6');
    assert_eq!(decode_petscii(PETSCII_SEVEN), '7');
    assert_eq!(decode_petscii(PETSCII_EIGHT), '8');
    assert_eq!(decode_petscii(PETSCII_NINE), '9');
}

#[test]
fn decode_padding_and_unknown() {
    assert_eq!(decode_petscii(PETSCII_NBSP), ' ');
    assert_eq!(decode_petscii(0), '.');
    assert_eq!(decode_petscii(92), '.');
    assert_eq!(decode_petscii(255), '.');
    assert_eq!(decode_petscii(91), '[');
    assert_eq!(decode_petscii(93), ']');
}

#[test]
fn encode_letters_and_digits() {
    assert_eq!(encode_petscii('A', PETSCII_NBSP), PETSCII_A);
    assert_eq!(encode_petscii('a', PETSCII_NBSP), PETSCII_A);
    assert_eq!(encode_petscii('I', PETSCII_NBSP), PETSCII_I);
    assert_eq!(encode_petscii('Z', PETSCII_NBSP), PETSCII_Z);
    assert_eq!(encode_petscii('z', PETSCII_NBSP), PETSCII_Z);
    assert_eq!(encode_petscii('0', PETSCII_NBSP), PETSCII_ZERO);
    assert_eq!(encode_petscii('9', PETSCII_NBSP), PETSCII_NINE);
}

#[test]
fn encode_unsupported_uses_default() {
    assert_eq!(encode_petscii('!', PETSCII_NBSP), PETSCII_NBSP);
    assert_eq!(encode_petscii(' ', 0), 0);
}

#[test]
fn fixed_size_keeps_bytes() {
    let s = PetsciiString::fixed_size(&[PETSCII_A, PETSCII_ONE, PETSCII_NBSP, PETSCII_Z]);
    assert_eq!(s.as_slice(), &[65, 49, 160, 90]);
    assert_eq!(s.len(), 4);
}

#[test]
fn to_string_stops_at_sentinel() {
    let s = PetsciiString::fixed_size(&[PETSCII_A, PETSCII_TWO, PETSCII_NBSP, PETSCII_Z]);
    assert_eq!(s.to_string(), "A2");
    let t = PetsciiString::fixed_size(&[PETSCII_A, PETSCII_TWO]);
    assert_eq!(t.to_string(), "A2");
}

#[test]
fn from_string_encodes_each_character() {
    let s = PetsciiString::from_string(&String::from("Ab9!"));
    assert_eq!(s.as_slice(), &[PETSCII_A, 66, PETSCII_NINE, PETSCII_NBSP]);
}
