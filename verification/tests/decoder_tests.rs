use softwerk_ocr::trocr::{TrocrAction, TrocrDecoder, TROCR_MAX_STEPS};

fn decode(action: TrocrAction) -> (usize, Vec<u32>, Vec<usize>) {
    match action {
        TrocrAction::Decode { start_pos, input, banned } => (start_pos, input, banned),
        TrocrAction::Finish => panic!("expected a decoding step"),
    }
}

#[test]
fn trocr_first_step_feeds_the_start_token() {
    let d = TrocrDecoder::new(2);
    assert_eq!(decode(d.next_action(0, 1)), (0, vec![2], vec![]));
}

#[test]
fn trocr_later_steps_feed_the_last_token_and_ban_specials() {
    let mut d = TrocrDecoder::new(2);
    d.on_token(40, 3);
    assert_eq!(decode(d.next_action(0, 1)), (1, vec![40], vec![0, 1]));
    d.on_token(41, 3);
    assert_eq!(decode(d.next_action(0, 1)), (2, vec![41], vec![0, 1]));
    assert_eq!(d.tokens(), &[2, 40, 41]);
}

#[test]
fn trocr_stops_at_the_end_token() {
    let mut d = TrocrDecoder::new(2);
    d.on_token(3, 3);
    assert!(matches!(d.next_action(0, 1), TrocrAction::Finish));
}

#[test]
fn trocr_stops_after_the_step_limit() {
    let mut d = TrocrDecoder::new(2);
    let mut steps = 0;
    while let TrocrAction::Decode { .. } = d.next_action(0, 1) {
        d.on_token(7, 3);
        steps += 1;
    }
    assert_eq!(steps, TROCR_MAX_STEPS);
    assert_eq!(d.tokens().len(), TROCR_MAX_STEPS + 1);
}
