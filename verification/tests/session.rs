use emojifinder::session::{Action, Event, Key, Session, SPLASH_TICKS};

fn typed(text: &str) -> Session {
    let mut session = Session::new();
    for c in text.chars() {
        assert_eq!(session.handle(Event::Input(Key::Char(c)), 10), Action::Continue);
    }
    session
}

#[test]
fn session_starts_with_the_notice() {
    let session = Session::new();
    assert_eq!(session.query, "");
    assert_eq!(session.last_query, "");
    assert_eq!(session.selected, 0);
    assert!(!session.flash);
    assert_eq!(session.splash, SPLASH_TICKS);
    assert_eq!(SPLASH_TICKS, 12);
}

#[test]
fn characters_go_to_the_query() {
    let mut session = typed("ca");
    session.selected = 4;
    assert_eq!(session.handle(Event::Input(Key::Char('t')), 10), Action::Continue);
    assert_eq!(session.query, "cat");
    assert_eq!(session.selected, 0);
    assert_eq!(session.splash, 0);
}

#[test]
fn backspace_takes_one_character_off() {
    let mut session = typed("caf\u{e9}");
    session.selected = 3;
    session.handle(Event::Input(Key::Backspace), 10);
    assert_eq!(session.query, "caf");
    assert_eq!(session.selected, 0);
    for _ in 0..5 {
        session.handle(Event::Input(Key::Backspace), 10);
    }
    assert_eq!(session.query, "");
}

#[test]
fn arrows_stay_within_the_list() {
    let mut session = Session::new();
    session.handle(Event::Input(Key::Up), 3);
    assert_eq!(session.selected, 0);
    session.handle(Event::Input(Key::Down), 3);
    session.handle(Event::Input(Key::Down), 3);
    assert_eq!(session.selected, 2);
    session.handle(Event::Input(Key::Down), 3);
    assert_eq!(session.selected, 2);
    session.handle(Event::Input(Key::Up), 3);
    assert_eq!(session.selected, 1);
    let mut empty = Session::new();
    empty.handle(Event::Input(Key::Down), 0);
    assert_eq!(empty.selected, 0);
    let mut last = Session::new();
    last.selected = usize::MAX;
    last.handle(Event::Input(Key::Down), usize::MAX);
    assert_eq!(last.selected, usize::MAX);
}

#[test]
fn line_feed_copies_the_selected_record() {
    let mut session = Session::new();
    session.handle(Event::Input(Key::Down), 3);
    assert_eq!(session.handle(Event::Input(Key::Char('\n')), 3), Action::Copy(1));
    assert!(session.flash);
    assert_eq!(session.query, "");
    let mut empty = Session::new();
    assert_eq!(empty.handle(Event::Input(Key::Char('\n')), 0), Action::Continue);
    assert!(!empty.flash);
    assert_eq!(empty.splash, 0);
}

#[test]
fn escape_asks_to_leave() {
    let mut session = typed("x");
    session.splash = 5;
    assert_eq!(session.handle(Event::Input(Key::Esc), 3), Action::Quit);
    assert_eq!(session.query, "x");
    assert_eq!(session.splash, 5);
}

#[test]
fn tick_and_other_keys() {
    let mut session = Session::new();
    assert_eq!(session.handle(Event::Tick, 3), Action::Continue);
    assert_eq!(session.splash, SPLASH_TICKS);
    assert_eq!(session.handle(Event::Input(Key::Other), 3), Action::Continue);
    assert_eq!(session.splash, 0);
    assert_eq!(session.selected, 0);
}

#[test]
fn frame_shows_the_notice_for_a_while() {
    let mut session = Session::new();
    for left in (0..SPLASH_TICKS).rev() {
        let frame = session.frame();
        assert!(frame.show_splash);
        assert_eq!(session.splash, left);
    }
    assert!(!session.frame().show_splash);
    assert_eq!(session.splash, 0);
}

#[test]
fn frame_prompts_for_a_query() {
    let mut session = Session::new();
    let frame = session.frame();
    assert_eq!(frame.prompt, "Search: [Start typing to find an Emoji]");
    assert!(!frame.search);
    assert!(!frame.inverted);
    let mut session = typed("cat");
    assert_eq!(session.frame().prompt, "Search: cat");
}

#[test]
fn frame_asks_for_a_search_once_per_query() {
    let mut session = typed("cat");
    assert!(session.frame().search);
    assert_eq!(session.last_query, "cat");
    assert!(!session.frame().search);
    session.handle(Event::Input(Key::Char('s')), 3);
    assert!(session.frame().search);
    session.handle(Event::Input(Key::Backspace), 3);
    assert!(session.frame().search);
    assert_eq!(session.last_query, "cat");
    for _ in 0..3 {
        session.handle(Event::Input(Key::Backspace), 3);
    }
    let frame = session.frame();
    assert!(!frame.search);
    assert_eq!(session.last_query, "cat");
}

#[test]
fn frame_is_inverted_once_after_a_copy() {
    let mut session = Session::new();
    session.handle(Event::Input(Key::Char('\n')), 1);
    assert!(session.frame().inverted);
    assert!(!session.frame().inverted);
}
