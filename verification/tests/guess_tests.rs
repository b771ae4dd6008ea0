use fritz_guess::{Error, GuessSeparator, MostFrequentLineByLine};

fn guesser_over(text: &str) -> MostFrequentLineByLine {
    MostFrequentLineByLine::from_content(text.to_string())
}

#[test]
fn positive_well_formed_guesses_single_line() {
    let mut source = "a;a".as_bytes();
    let guesser = MostFrequentLineByLine::try_new(&mut source).unwrap();
    assert_eq!(guesser.guess(&[';', ',']).unwrap(), ';');
}

#[test]
fn positive_well_formed_guesses_multi_line() {
    let mut source = "a;a\na;a".as_bytes();
    let guesser = MostFrequentLineByLine::try_new(&mut source).unwrap();
    assert_eq!(guesser.guess(&[';', ',']).unwrap(), ';');
}

#[test]
fn positive_well_formed_guesses_mixed_line() {
    let mut source = "a;b;c,c".as_bytes();
    let guesser = MostFrequentLineByLine::try_new(&mut source).unwrap();
    assert_eq!(guesser.guess(&[';', ',']).unwrap(), ';');
}

#[test]
fn positive_well_formed_guesses_majority() {
    let mut source = "a;b;c\na;a,b,c\na;b;c\na;b;c\n".as_bytes();
    let guesser = MostFrequentLineByLine::try_new(&mut source).unwrap();
    assert_eq!(guesser.guess(&[';', ',']).unwrap(), ';');
}

#[test]
fn positive_well_formed_guesses_comma_majority() {
    let mut source = "a,b,c;d\na,b,c;d\na,b,c;d".as_bytes();
    let guesser = MostFrequentLineByLine::try_new(&mut source).unwrap();
    assert_eq!(guesser.guess(&[';', ',']).unwrap(), ',');
}

#[test]
fn equal_counts_have_char_ordering() {
    // One line won by each candidate: the tie goes to the larger code
    // point, whatever order the candidates come in.
    for text in ["a,a\na;a", "a;a\na,a"] {
        for seps in [[';', ','], [',', ';']] {
            let guesser = guesser_over(text);
            assert_eq!(guesser.guess(&seps).unwrap(), ';');
        }
    }
}

#[test]
fn result_is_a_candidate_or_no_delimiter() {
    let candidates = ['\t', '|', ';', ','];
    for text in ["x|y|z\nq\tr", "no separators here", "a,b;c\nd,e,f"] {
        let guesser = guesser_over(text);
        match guesser.guess(&candidates) {
            Ok(c) => assert!(candidates.contains(&c)),
            Err(e) => assert!(matches!(e, Error::NoDelimiterFound)),
        }
    }
}

#[test]
fn guessing_twice_gives_the_same_result() {
    let guesser = guesser_over("a;b,c\nd;e;f\ng,h,i\n");
    let first = guesser.guess(&[';', ',']).unwrap();
    let second = guesser.guess(&[';', ',']).unwrap();
    assert_eq!(first, second);
}

#[test]
fn empty_content_yields_no_delimiter() {
    let guesser = guesser_over("");
    assert!(matches!(guesser.guess(&[';', ',']), Err(Error::NoDelimiterFound)));
}

#[test]
fn content_without_candidates_yields_no_delimiter() {
    let guesser = guesser_over("plain words\nacross two lines\n");
    assert!(matches!(guesser.guess(&[';', ',']), Err(Error::NoDelimiterFound)));
}

#[test]
fn empty_candidate_set_yields_no_delimiter() {
    let guesser = guesser_over("a;b;c");
    assert!(matches!(guesser.guess(&[]), Err(Error::NoDelimiterFound)));
}

#[test]
fn blank_lines_only_yield_no_delimiter() {
    let guesser = guesser_over("\n\n\n");
    assert!(matches!(guesser.guess(&[';', ',']), Err(Error::NoDelimiterFound)));
}

#[test]
fn single_line_majority_wins() {
    let guesser = guesser_over("a;a");
    assert_eq!(guesser.guess(&[';', ',']).unwrap(), ';');
}

#[test]
fn multi_line_majority_wins() {
    let guesser = guesser_over("a;b;c\na;a,b,c\na;b;c\na;b;c\n");
    assert_eq!(guesser.guess(&[';', ',']).unwrap(), ';');
}

#[test]
fn global_tie_goes_to_larger_code_point() {
    // Comma and semicolon each win exactly two lines; ';' (0x3B) is the
    // larger code point, so it must be the guess.
    let guesser = guesser_over("a;b;c\nd,e,f\ng;h;i\nj,k,l\n");
    assert_eq!(guesser.guess(&[';', ',']).unwrap(), ';');
    assert_eq!(guesser.guess(&[',', ';']).unwrap(), ';');
}

#[test]
fn per_line_tie_goes_to_larger_code_point() {
    // Both candidates appear once on the only line.
    let guesser = guesser_over("a;b,");
    assert_eq!(guesser.guess(&[';', ',']).unwrap(), ';');
    assert_eq!(guesser.guess(&[',', ';']).unwrap(), ';');
}

#[test]
fn candidate_order_does_not_change_the_winner() {
    let texts = ["a;a", "a,b,c;d\na,b,c;d", "x\ty\tz\nu|v", ""];
    let orders: [&[char]; 2] = [&[',', ';', '\t', '|'], &['|', '\t', ';', ',']];
    for text in texts {
        let r1 = guesser_over(text).guess(orders[0]);
        let r2 = guesser_over(text).guess(orders[1]);
        match (r1, r2) {
            (Ok(c1), Ok(c2)) => assert_eq!(c1, c2),
            (Err(e1), Err(e2)) => {
                assert!(matches!(e1, Error::NoDelimiterFound));
                assert!(matches!(e2, Error::NoDelimiterFound));
            }
            _ => panic!("one ordering found a separator, the other did not"),
        }
    }
}

#[test]
fn carriage_returns_before_line_feeds_are_stripped() {
    // After stripping the "\r\n" terminators no candidate remains; were
    // the '\r' kept as line content, it would win every line.
    let guesser = guesser_over("ab\r\ncd\r\n");
    assert!(matches!(guesser.guess(&['\r', ',']), Err(Error::NoDelimiterFound)));
}

#[test]
fn trailing_line_feed_adds_no_line() {
    let with_terminator = guesser_over("a;a\nb,b,b\nc,c,c\n").guess(&[';', ',']).unwrap();
    let without_terminator = guesser_over("a;a\nb,b,b\nc,c,c").guess(&[';', ',']).unwrap();
    assert_eq!(with_terminator, ',');
    assert_eq!(without_terminator, ',');
}

#[test]
fn try_new_reads_the_full_source() {
    let text = "a,b,c\nd,e,f\ng;h;i\n";
    let mut source = text.as_bytes();
    let from_reader = MostFrequentLineByLine::try_new(&mut source).unwrap();
    let from_text = guesser_over(text);
    assert_eq!(from_reader.guess(&[';', ',']).unwrap(), from_text.guess(&[';', ',']).unwrap());
}

#[test]
fn try_new_reports_an_unreadable_source() {
    // Invalid UTF-8 cannot be decoded into text.
    let mut source: &[u8] = &[0xff, 0xfe, 0xfd];
    assert!(matches!(MostFrequentLineByLine::try_new(&mut source), Err(Error::Io(_))));
}
