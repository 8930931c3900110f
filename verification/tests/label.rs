//! Fixed-width and heap labels.
use ticit::label::{Key, Label, LabelKey, Width};

#[test]
fn padding_words_are_transparent() {
    let bits = [3usize, 64, 65, 100];
    let narrow = Key::<2>::mask_from_support(2, &bits);
    let padded = Key::<8>::mask_from_support(2, &bits);
    assert_eq!(narrow.first_set_bit(), padded.first_set_bit());
    assert_eq!(narrow.is_zero(), padded.is_zero());

    let other = [3usize, 65];
    let narrow_mask = Key::<2>::mask_from_support(2, &other);
    let padded_mask = Key::<8>::mask_from_support(2, &other);
    assert_eq!(
        narrow.dot_parity(&narrow_mask),
        padded.dot_parity(&padded_mask)
    );
    assert_eq!(
        narrow.xor(&narrow_mask).as_slice(),
        &padded.xor(&padded_mask).as_slice()[..2]
    );
}

#[test]
fn wide_labels_agree_with_fixed_width_keys() {
    let bits = [0usize, 63, 64, 127];
    let fixed = Key::<2>::mask_from_support(2, &bits);
    let wide = Label::mask_from_support(2, &bits);
    assert_eq!(fixed.as_slice(), wide.as_slice());
    assert_eq!(fixed.first_set_bit(), wide.first_set_bit());

    let mask_bits = [63usize, 64];
    let fixed_mask = Key::<2>::mask_from_support(2, &mask_bits);
    let wide_mask = Label::mask_from_support(2, &mask_bits);
    assert_eq!(fixed.dot_parity(&fixed_mask), wide.dot_parity(&wide_mask));
    assert_eq!(
        fixed.xor(&fixed_mask).as_slice(),
        wide.xor(&wide_mask).as_slice()
    );
}

#[test]
fn width_classes_round_up() {
    for (words, want) in [
        (1usize, Width::W1),
        (2, Width::W2),
        (3, Width::W4),
        (4, Width::W4),
        (5, Width::W8),
        (8, Width::W8),
        (9, Width::Wide),
    ] {
        assert_eq!(Width::for_words(words), want, "{words} words");
    }
}

#[test]
fn labels_flip_and_read_single_bits() {
    let mut label = Label::zeros(2);
    assert!(label.is_zero());
    assert_eq!(label.first_set_bit(), None);
    label.flip(70);
    label.flip(65);
    assert!(label.get(70) && label.get(65) && !label.get(64));
    assert_eq!(label.first_set_bit(), Some(65));
    label.flip(65);
    assert_eq!(label.first_set_bit(), Some(70));
    assert_eq!(Label::from_words(&[5], 3).as_slice(), &[5, 0, 0]);
}
