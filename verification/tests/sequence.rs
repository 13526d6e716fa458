use brace_expand::CharTryFromError;
use brace_expand::sequence::Sequence;
use brace_expand::sequence::SequenceItem;

fn collect_seq<T: SequenceItem>(sequence: Sequence<T>) -> Result<Vec<T>, CharTryFromError> {
    let mut it = sequence.into_iter();
    let mut out = Vec::new();
    while let Some(item) = it.next() {
        out.push(item?);
    }
    Ok(out)
}

#[test]
fn test_integers() {
    let sequence = Sequence {
        start: 1i64,
        end: 10i64,
        incr: 1,
    };
    let values: Result<Vec<_>, _> = collect_seq(sequence);
    assert_eq!(&values.unwrap(), &[1i64, 2, 3, 4, 5, 6, 7, 8, 9, 10]);
}

#[test]
fn test_integers_incr() {
    let sequence = Sequence {
        start: 1i64,
        end: 10i64,
        incr: 2,
    };
    let values: Result<Vec<_>, _> = collect_seq(sequence);
    assert_eq!(&values.unwrap(), &[1i64, 3, 5, 7, 9]);
}

#[test]
fn test_integers_rev() {
    let sequence = Sequence {
        start: 10i64,
        end: 1i64,
        incr: 1,
    };
    let values: Result<Vec<_>, _> = collect_seq(sequence);
    assert_eq!(&values.unwrap(), &[10i64, 9, 8, 7, 6, 5, 4, 3, 2, 1]);
}

#[test]
fn test_integers_rev_incr() {
    let sequence = Sequence {
        start: 10i64,
        end: 1i64,
        incr: 2,
    };
    let values: Result<Vec<_>, _> = collect_seq(sequence);
    assert_eq!(&values.unwrap(), &[10i64, 8, 6, 4, 2]);
}

#[test]
fn test_characters() {
    let sequence = Sequence {
        start: 'a',
        end: 'f',
        incr: 1,
    };
    let values: Result<Vec<_>, _> = collect_seq(sequence);
    assert_eq!(&values.unwrap(), &['a', 'b', 'c', 'd', 'e', 'f']);
}

#[test]
fn test_characters_illegal() {
    let sequence = Sequence {
        start: '\u{D7FF}',
        end: '\u{E000}',
        incr: 1,
    };
    let values: Result<Vec<_>, _> = collect_seq(sequence);
    assert!(&values.is_err());
}

#[test]
fn test_characters_skip_surrogate() {
    let sequence = Sequence {
        start: '\u{D000}',
        end: '\u{10001}',
        incr: 0x1000,
    };
    let values: Result<Vec<_>, _> = collect_seq(sequence);
    assert_eq!(
        &values.unwrap(),
        &['\u{D000}', '\u{E000}', '\u{F000}', '\u{10000}']
    );
}

#[test]
fn test_characters_incr() {
    let sequence = Sequence {
        start: 'a',
        end: 'f',
        incr: 2,
    };
    let values: Result<Vec<_>, _> = collect_seq(sequence);
    assert_eq!(&values.unwrap(), &['a', 'c', 'e']);
}

#[test]
fn test_characters_rev() {
    let sequence = Sequence {
        start: 'f',
        end: 'a',
        incr: 1,
    };
    let values: Result<Vec<_>, _> = collect_seq(sequence);
    assert_eq!(&values.unwrap(), &['f', 'e', 'd', 'c', 'b', 'a']);
}

#[test]
fn test_characters_rev_incr() {
    let sequence = Sequence {
        start: 'f',
        end: 'a',
        incr: 2,
    };
    let values: Result<Vec<_>, _> = collect_seq(sequence);
    assert_eq!(&values.unwrap(), &['f', 'd', 'b']);
}

#[test]
fn test_single_value_sequence() {
    let sequence = Sequence {
        start: 7i64,
        end: 7i64,
        incr: 3,
    };
    let values: Result<Vec<_>, _> = collect_seq(sequence);
    assert_eq!(&values.unwrap(), &[7i64]);
}

#[test]
fn test_other_integer_widths() {
    let sequence = Sequence {
        start: 250u8,
        end: 255u8,
        incr: 2,
    };
    let values: Result<Vec<_>, _> = collect_seq(sequence);
    assert_eq!(&values.unwrap(), &[250u8, 252, 254]);
    let sequence = Sequence {
        start: -2i16,
        end: 2i16,
        incr: 2,
    };
    let values: Result<Vec<_>, _> = collect_seq(sequence);
    assert_eq!(&values.unwrap(), &[-2i16, 0, 2]);
}

#[test]
fn test_error_does_not_stop_the_walk() {
    // one invalid code point in the middle: the neighbours still convert
    let sequence = Sequence {
        start: '\u{D700}',
        end: '\u{E100}',
        incr: 0x480,
    };
    let mut it = sequence.into_iter();
    assert_eq!(it.next().unwrap().unwrap(), '\u{D700}');
    assert!(it.next().unwrap().is_err());
    assert_eq!(it.next().unwrap().unwrap(), '\u{E000}');
    assert!(it.next().is_none());
}
