use roxel::onboarding::{tour_step, AnchorId, Onboarding, TOUR_LEN};

#[test]
fn tour_starts_at_first_step() {
    let mut o = Onboarding::default();
    o.start();
    assert!(o.active);
    assert_eq!(o.step, 0);
    assert_eq!(o.current().unwrap().anchor, AnchorId::Viewport);
}

#[test]
fn next_advances_through_each_step() {
    let mut o = Onboarding::default();
    o.start();
    for expected in 1..TOUR_LEN {
        o.next();
        assert!(o.active, "tour ended early at step {expected}");
        assert_eq!(o.step, expected);
        assert!(o.current().is_some());
    }
}

#[test]
fn next_on_last_step_finishes_and_sets_persist() {
    let mut o = Onboarding::default();
    o.start();
    for _ in 0..TOUR_LEN - 1 {
        o.next();
    }
    o.next();
    assert!(!o.active);
    assert!(o.pending_persist);
    assert!(o.current().is_none());
    assert!(o.is_done());
}

#[test]
fn skip_finishes_immediately() {
    let mut o = Onboarding::default();
    o.start();
    o.skip();
    assert!(!o.active);
    assert!(o.pending_persist);
}

#[test]
fn restart_resets_step_to_zero() {
    let mut o = Onboarding::default();
    o.start();
    o.next();
    o.next();
    o.skip();
    o.start();
    assert!(o.active);
    assert_eq!(o.step, 0);
}

#[test]
fn next_when_inactive_is_noop() {
    let mut o = Onboarding::default();
    o.next();
    assert!(!o.active);
    assert_eq!(o.step, 0);
    assert!(!o.pending_persist);
}

#[test]
fn skip_when_inactive_is_noop() {
    let mut o = Onboarding::default();
    o.skip();
    assert!(!o.pending_persist);
}

#[test]
fn tour_steps_count_is_four() {
    assert_eq!(TOUR_LEN, 4);
    assert!(tour_step(3).is_some());
    assert!(tour_step(4).is_none());
}

#[test]
fn every_step_has_nonempty_copy_under_140_chars() {
    for i in 0..TOUR_LEN {
        let s = tour_step(i).unwrap();
        assert!(!s.title.is_empty(), "step {i} title empty");
        assert!(!s.body.is_empty(), "step {i} body empty");
        assert!(s.body.chars().count() <= 140, "step {i} body too long");
        assert!(s.title.chars().count() <= 40, "step {i} title too long");
    }
}

#[test]
fn anchor_ids_are_distinct_across_steps() {
    let ids: Vec<AnchorId> = (0..TOUR_LEN).map(|i| tour_step(i).unwrap().anchor).collect();
    for i in 0..ids.len() {
        for j in (i + 1)..ids.len() {
            assert_ne!(ids[i], ids[j], "duplicate anchor at steps {i} and {j}");
        }
    }
}

#[test]
fn autostart_fires_once_and_starts_unseen_tour() {
    let mut o = Onboarding::default();
    o.autostart(false, false);
    assert!(!o.active && !o.autostart_fired);
    o.anchors_ready = true;
    o.autostart(false, false);
    assert!(o.active && o.autostart_fired);
    assert_eq!(o.step, 0);
    o.next();
    o.autostart(false, false);
    assert_eq!(o.step, 1);
}

#[test]
fn autostart_respects_seen_and_open_dialog() {
    let mut o = Onboarding::default();
    o.anchors_ready = true;
    o.autostart(true, false);
    assert!(!o.active && o.autostart_fired);
    let mut p = Onboarding::default();
    p.anchors_ready = true;
    p.autostart(false, true);
    assert!(!p.active && p.autostart_fired);
}

#[test]
fn tour_cards_carry_their_titles() {
    let titles: Vec<&str> = (0..4).map(|i| tour_step(i).expect("card").title).collect();
    assert_eq!(titles, vec!["Paint and orbit", "Tools", "Color and palette", "Reframe the model"]);
    assert!(tour_step(1).expect("card").body.starts_with("Brush, Erase, Paint, Pick, and Shape"));
    assert!(tour_step(4).is_none());
}
