use startui::app::{ActivePane, App, Command, Key};
use startui::rss::RssItem;
use startui::ui::feed_placeholder;

fn item(title: &str, link: &str) -> RssItem {
    RssItem { title: title.to_string(), link: link.to_string() }
}

fn app_with_items(n: usize) -> App {
    let mut app = App::new();
    let items = (0..n).map(|i| item(&format!("t{}", i), &format!("https://x/{}", i))).collect();
    app.apply_fetch_result(Ok(items));
    app
}

#[test]
fn new_app_initial_state() {
    let app = App::new();
    assert_eq!(app.song_title, "No Music Playing");
    assert_eq!(app.scroll_offset, 0);
    assert_eq!(app.tick_counter, 0);
    assert_eq!(app.rss_selected, Some(0));
    assert_eq!(app.active_pane, ActivePane::Left);
    assert!(app.rss_items.is_empty());
    assert!(app.rss_error.is_none());
}

#[test]
fn scroll_up_wraps_to_last() {
    let mut app = app_with_items(3);
    app.scroll_rss_up();
    assert_eq!(app.rss_selected, Some(2));
    app.scroll_rss_up();
    assert_eq!(app.rss_selected, Some(1));
}

#[test]
fn scroll_down_wraps_to_first() {
    let mut app = app_with_items(3);
    app.scroll_rss_down();
    app.scroll_rss_down();
    assert_eq!(app.rss_selected, Some(2));
    app.scroll_rss_down();
    assert_eq!(app.rss_selected, Some(0));
}

#[test]
fn scroll_on_empty_list_does_nothing() {
    let mut app = App::new();
    app.rss_selected = Some(4);
    app.scroll_rss_up();
    assert_eq!(app.rss_selected, Some(4));
    app.scroll_rss_down();
    assert_eq!(app.rss_selected, Some(4));
}

#[test]
fn scroll_without_selection_starts_from_first() {
    let mut app = app_with_items(4);
    app.rss_selected = None;
    app.scroll_rss_up();
    assert_eq!(app.rss_selected, Some(3));
    app.rss_selected = None;
    app.scroll_rss_down();
    assert_eq!(app.rss_selected, Some(1));
}

#[test]
fn scroll_moves_undo_each_other() {
    for n in 1..6 {
        for i in 0..n {
            let mut app = app_with_items(n);
            app.rss_selected = Some(i);
            app.scroll_rss_up();
            app.scroll_rss_down();
            assert_eq!(app.rss_selected, Some(i));
            app.scroll_rss_down();
            app.scroll_rss_up();
            assert_eq!(app.rss_selected, Some(i));
        }
    }
}

#[test]
fn scroll_down_len_times_returns_to_start() {
    let mut app = app_with_items(5);
    app.rss_selected = Some(2);
    for k in 1..=12usize {
        app.scroll_rss_down();
        assert_eq!(app.rss_selected, Some((2 + k) % 5));
    }
}

#[test]
fn key_bindings() {
    assert_eq!(Key::Char('h').command(), Command::FocusLeft);
    assert_eq!(Key::Left.command(), Command::FocusLeft);
    assert_eq!(Key::Char('l').command(), Command::FocusRight);
    assert_eq!(Key::Right.command(), Command::FocusRight);
    assert_eq!(Key::Char('k').command(), Command::SelectPrevious);
    assert_eq!(Key::Up.command(), Command::SelectPrevious);
    assert_eq!(Key::Char('j').command(), Command::SelectNext);
    assert_eq!(Key::Down.command(), Command::SelectNext);
    assert_eq!(Key::Enter.command(), Command::OpenSelected);
    assert_eq!(Key::Char('x').command(), Command::Ignore);
    assert_eq!(Key::Other.command(), Command::Ignore);
    assert!(Key::Char('q').quits());
    assert!(!Key::Char('Q').quits());
    assert!(!Key::Enter.quits());
}

#[test]
fn focus_moves_and_cycles() {
    let mut app = App::new();
    assert_eq!(app.handle_input(Key::Char('l')), None);
    assert_eq!(app.active_pane, ActivePane::Center);
    app.handle_input(Key::Right);
    assert_eq!(app.active_pane, ActivePane::Right);
    app.handle_input(Key::Right);
    assert_eq!(app.active_pane, ActivePane::Left);
    app.handle_input(Key::Left);
    assert_eq!(app.active_pane, ActivePane::Right);
    app.handle_input(Key::Char('h'));
    assert_eq!(app.active_pane, ActivePane::Center);
    app.handle_input(Key::Char('l'));
    assert_eq!(app.active_pane, ActivePane::Right);
}

#[test]
fn selection_keys_only_act_in_feed_pane() {
    let mut app = app_with_items(3);
    app.handle_input(Key::Char('j'));
    assert_eq!(app.rss_selected, Some(1));
    app.handle_input(Key::Down);
    assert_eq!(app.rss_selected, Some(2));
    app.handle_input(Key::Up);
    assert_eq!(app.rss_selected, Some(1));
    app.handle_input(Key::Right);
    app.handle_input(Key::Char('j'));
    app.handle_input(Key::Char('k'));
    app.handle_input(Key::Down);
    assert_eq!(app.rss_selected, Some(1));
}

#[test]
fn enter_opens_selected_link() {
    let mut app = app_with_items(3);
    app.handle_input(Key::Down);
    assert_eq!(app.handle_input(Key::Enter), Some("https://x/1".to_string()));
    app.rss_selected = Some(7);
    assert_eq!(app.handle_input(Key::Enter), None);
    app.rss_selected = None;
    assert_eq!(app.handle_input(Key::Enter), None);
    app.rss_selected = Some(0);
    app.handle_input(Key::Right);
    assert_eq!(app.handle_input(Key::Enter), None);
}

#[test]
fn other_keys_change_nothing() {
    let mut app = app_with_items(2);
    assert_eq!(app.handle_input(Key::Char('z')), None);
    assert_eq!(app.handle_input(Key::Other), None);
    assert_eq!(app.active_pane, ActivePane::Left);
    assert_eq!(app.rss_selected, Some(0));
}

#[test]
fn tick_polls_song_every_fourth_tick() {
    let mut app = App::new();
    let mut due = Vec::new();
    for _ in 0..8 {
        due.push(app.song_lookup_due());
        app.tick(None);
    }
    assert_eq!(due, vec![false, false, false, true, false, false, false, true]);
    assert_eq!(app.tick_counter, 8);
    assert_eq!(app.scroll_offset, 8);
}

#[test]
fn tick_counter_wraps() {
    let mut app = App::new();
    app.tick_counter = u32::MAX;
    assert!(app.song_lookup_due());
    app.tick(None);
    assert_eq!(app.tick_counter, 0);
}

fn tick_until_due(app: &mut App) {
    while !app.song_lookup_due() {
        app.tick(None);
    }
}

#[test]
fn new_song_restarts_scrolling() {
    let mut app = App::new();
    tick_until_due(&mut app);
    app.scroll_offset = 40;
    app.tick(Some("Song - Artist".to_string()));
    assert_eq!(app.song_title, "Song - Artist");
    assert_eq!(app.scroll_offset, 1);
    tick_until_due(&mut app);
    let offset = app.scroll_offset;
    app.tick(Some("Song - Artist".to_string()));
    assert_eq!(app.scroll_offset, offset + 1);
    app.tick(None);
    assert_eq!(app.scroll_offset, offset + 2);
    assert_eq!(app.song_title, "Song - Artist");
}

#[test]
fn song_offered_off_schedule_is_ignored() {
    let mut app = App::new();
    assert!(!app.song_lookup_due());
    app.scroll_offset = 7;
    app.tick(Some("Other".to_string()));
    assert_eq!(app.song_title, "No Music Playing");
    assert_eq!(app.scroll_offset, 8);
}

#[test]
fn scroll_offset_wraps() {
    let mut app = App::new();
    app.scroll_offset = usize::MAX;
    app.tick(None);
    assert_eq!(app.scroll_offset, 0);
}

#[test]
fn scroll_up_len_times_returns_to_start() {
    let mut app = app_with_items(5);
    app.rss_selected = Some(2);
    for k in 1..=12usize {
        app.scroll_rss_up();
        assert_eq!(app.rss_selected, Some((2 + 5 * 3 - k) % 5));
    }
}

#[test]
fn fetched_items_replace_list_and_select_first() {
    let mut app = App::new();
    app.rss_selected = Some(5);
    app.rss_error = Some("old".to_string());
    app.apply_fetch_result(Ok(vec![item("a", "b")]));
    assert_eq!(app.rss_items.len(), 1);
    assert_eq!(app.rss_items[0].title, "a");
    assert_eq!(app.rss_selected, Some(0));
    assert!(app.rss_error.is_none());
}

#[test]
fn failed_fetch_clears_list_and_shows_error() {
    let mut app = app_with_items(3);
    app.rss_selected = Some(2);
    app.apply_fetch_result(Err("Network Error: Check error.log".to_string()));
    assert!(app.rss_items.is_empty());
    assert_eq!(app.rss_error.as_deref(), Some("Network Error: Check error.log"));
    assert_eq!(app.rss_selected, Some(2));
    assert_eq!(feed_placeholder(&app), "Network Error: Check error.log");
}

#[test]
fn placeholder_while_loading() {
    assert_eq!(feed_placeholder(&App::new()), "Loading feed...");
}
