use log_viewer::classify::classify;
use log_viewer::filter::Filter;
use log_viewer::record::{Kind, Record, Source};
use log_viewer::render::{plan_render, render_row, render_rows, Brush};
use log_viewer::ring::Ring;
use log_viewer::view::{derive_view, ViewItem};
use log_viewer::window::{CheckBoxes, LogChildOsWindow, Toggle, UiMessage};

fn rec(kind: Kind, content: &str) -> Record {
    Record::new(kind, content.to_string())
}

fn items(v: &[ViewItem]) -> Vec<(Kind, String, usize)> {
    v.iter().map(|i| (i.kind, i.content.clone(), i.count)).collect()
}

fn ring_contents(r: &Ring) -> Vec<(Kind, String)> {
    (0..r.len()).map(|i| (r.get(i).kind, r.get(i).content.clone())).collect()
}

fn uncheck(target: Toggle) -> UiMessage {
    UiMessage::CheckBox { target, from_widget: true, checked: Some(false) }
}

#[test]
fn basic_fold() {
    let mut w = LogChildOsWindow::new(1000);
    let view = w
        .update(
            vec![
                rec(Kind::Information, "hello"),
                rec(Kind::Information, "hello"),
                rec(Kind::Information, "world"),
            ],
            vec![],
        )
        .unwrap();
    assert_eq!(
        items(&view),
        vec![
            (Kind::Information, "hello".to_string(), 2),
            (Kind::Information, "world".to_string(), 1)
        ]
    );
    let rows = render_rows(&view);
    assert_eq!(rows.len(), 2);
    assert_eq!(rows[0].text, "hello (x2)");
    assert_eq!(rows[0].foreground, Brush::Information);
    assert_eq!(rows[0].background, Brush::Light);
    assert_eq!(rows[1].text, "world");
    assert_eq!(rows[1].foreground, Brush::Information);
    assert_eq!(rows[1].background, Brush::Dark);
}

#[test]
fn source_strip() {
    let mut w = LogChildOsWindow::new(1000);
    let src = w.ingest(rec(Kind::Information, "prefix [__GAME__] body"));
    assert_eq!(src, Source::Game);
    assert_eq!(w.engine_ring().len(), 0);
    assert_eq!(
        ring_contents(w.game_ring()),
        vec![(Kind::Information, "prefix  body".to_string())]
    );
}

#[test]
fn source_strip_removes_every_marker() {
    let (src, r) = classify(rec(Kind::Error, "[__GAME__]a[__GAME__]b"));
    assert_eq!(src, Source::Game);
    assert_eq!(r.kind, Kind::Error);
    assert_eq!(r.content, "ab");
}

#[test]
fn marker_must_be_whole() {
    let (src, r) = classify(rec(Kind::Warning, "[__GAME_] x"));
    assert_eq!(src, Source::Engine);
    assert_eq!(r.content, "[__GAME_] x");
}

#[test]
fn source_gate() {
    let mut w = LogChildOsWindow::new(1000);
    w.update(
        vec![rec(Kind::Warning, "[__GAME__]g"), rec(Kind::Warning, "e")],
        vec![],
    );
    let view = w.update(vec![], vec![uncheck(Toggle::Game)]).unwrap();
    assert_eq!(items(&view), vec![(Kind::Warning, "e".to_string(), 1)]);
    assert_eq!(render_rows(&view)[0].foreground, Brush::Warning);
}

#[test]
fn kind_gate() {
    let mut w = LogChildOsWindow::new(1000);
    w.update(
        vec![
            rec(Kind::Information, "a"),
            rec(Kind::Error, "b"),
            rec(Kind::Warning, "c"),
        ],
        vec![],
    );
    let view = w.update(vec![], vec![uncheck(Toggle::Warning)]).unwrap();
    assert_eq!(
        items(&view),
        vec![
            (Kind::Information, "a".to_string(), 1),
            (Kind::Error, "b".to_string(), 1)
        ]
    );
}

#[test]
fn cross_source_fold() {
    let mut w = LogChildOsWindow::new(1000);
    let view = w
        .update(
            vec![
                rec(Kind::Information, "[__GAME__]x"),
                rec(Kind::Information, "x"),
                rec(Kind::Information, "x"),
            ],
            vec![],
        )
        .unwrap();
    assert_eq!(items(&view), vec![(Kind::Information, "x".to_string(), 3)]);
    assert_eq!(render_rows(&view)[0].text, "x (x3)");
}

#[test]
fn ring_eviction() {
    let mut w = LogChildOsWindow::new(2);
    let view = w
        .update(
            vec![
                rec(Kind::Information, "1"),
                rec(Kind::Information, "2"),
                rec(Kind::Information, "3"),
            ],
            vec![],
        )
        .unwrap();
    assert_eq!(
        ring_contents(w.engine_ring()),
        vec![
            (Kind::Information, "2".to_string()),
            (Kind::Information, "3".to_string())
        ]
    );
    assert_eq!(
        items(&view),
        vec![
            (Kind::Information, "2".to_string(), 1),
            (Kind::Information, "3".to_string(), 1)
        ]
    );
}

#[test]
fn ring_never_exceeds_capacity() {
    let mut r = Ring::new(3);
    for i in 0..10 {
        r.push(rec(Kind::Information, &i.to_string()));
        assert!(r.len() <= 3);
    }
    assert_eq!(r.max(), 3);
    assert_eq!(r.get(0).content, "7");
    assert_eq!(r.get(2).content, "9");
}

#[test]
fn ring_of_capacity_zero_stays_empty() {
    let mut r = Ring::new(0);
    r.push(rec(Kind::Information, "a"));
    assert_eq!(r.len(), 0);
}

#[test]
fn empty_rings_give_empty_view() {
    let w = LogChildOsWindow::new(10);
    assert!(w.derive().is_empty());
}

#[test]
fn all_filtered_gives_empty_view() {
    let mut w = LogChildOsWindow::new(10);
    w.update(vec![rec(Kind::Error, "x")], vec![]);
    let view = w.update(vec![], vec![uncheck(Toggle::Error)]).unwrap();
    assert!(view.is_empty());
}

#[test]
fn same_content_different_kind_not_folded() {
    let mut w = LogChildOsWindow::new(10);
    let view = w
        .update(vec![rec(Kind::Information, "m"), rec(Kind::Error, "m")], vec![])
        .unwrap();
    assert_eq!(
        items(&view),
        vec![
            (Kind::Information, "m".to_string(), 1),
            (Kind::Error, "m".to_string(), 1)
        ]
    );
}

#[test]
fn gates_hold_on_every_item() {
    let mut w = LogChildOsWindow::new(10);
    w.update(
        vec![
            rec(Kind::Information, "[__GAME__]gi"),
            rec(Kind::Error, "[__GAME__]ge"),
            rec(Kind::Information, "ei"),
            rec(Kind::Warning, "ew"),
        ],
        vec![],
    );
    let view = w
        .update(vec![], vec![uncheck(Toggle::Engine), uncheck(Toggle::Info)])
        .unwrap();
    assert_eq!(items(&view), vec![(Kind::Error, "ge".to_string(), 1)]);
}

#[test]
fn derivation_is_repeatable() {
    let mut w = LogChildOsWindow::new(10);
    w.update(
        vec![
            rec(Kind::Information, "a"),
            rec(Kind::Warning, "[__GAME__]b"),
            rec(Kind::Information, "a"),
        ],
        vec![],
    );
    assert_eq!(items(&w.derive()), items(&w.derive()));
    let f = w.filter();
    let again = derive_view(w.game_ring(), w.engine_ring(), &f);
    assert_eq!(items(&again), items(&w.derive()));
}

#[test]
fn counts_add_up_to_admissible_records() {
    let mut w = LogChildOsWindow::new(10);
    let view = w
        .update(
            vec![
                rec(Kind::Information, "a"),
                rec(Kind::Information, "b"),
                rec(Kind::Information, "[__GAME__]a"),
                rec(Kind::Error, "a"),
                rec(Kind::Information, "a"),
                rec(Kind::Warning, "[__GAME__]w"),
            ],
            vec![uncheck(Toggle::Warning)],
        )
        .unwrap();
    let total: usize = view.iter().map(|i| i.count).sum();
    assert_eq!(total, 5);
}

#[test]
fn repeated_key_placed_by_newest_occurrence() {
    let mut w = LogChildOsWindow::new(10);
    let view = w
        .update(
            vec![
                rec(Kind::Information, "a"),
                rec(Kind::Information, "b"),
                rec(Kind::Information, "a"),
                rec(Kind::Information, "c"),
            ],
            vec![],
        )
        .unwrap();
    assert_eq!(
        items(&view),
        vec![
            (Kind::Information, "b".to_string(), 1),
            (Kind::Information, "a".to_string(), 2),
            (Kind::Information, "c".to_string(), 1)
        ]
    );
}

#[test]
fn engine_items_stand_above_game_items() {
    let mut w = LogChildOsWindow::new(10);
    let view = w
        .update(
            vec![rec(Kind::Information, "[__GAME__]g"), rec(Kind::Information, "e")],
            vec![],
        )
        .unwrap();
    assert_eq!(
        items(&view),
        vec![
            (Kind::Information, "e".to_string(), 1),
            (Kind::Information, "g".to_string(), 1)
        ]
    );
}

#[test]
fn rerender_is_idempotent() {
    let view = vec![
        ViewItem { kind: Kind::Error, content: "boom".to_string(), count: 12 },
        ViewItem { kind: Kind::Warning, content: "w".to_string(), count: 1 },
    ];
    let first = plan_render(&vec![7, 8, 9], &view);
    assert_eq!(first.remove, vec![7, 8, 9]);
    let second = plan_render(&vec![1, 2], &view);
    assert_eq!(second.remove, vec![1, 2]);
    let a: Vec<(String, Brush, Brush)> =
        first.append.iter().map(|r| (r.text.clone(), r.foreground, r.background)).collect();
    let b: Vec<(String, Brush, Brush)> =
        second.append.iter().map(|r| (r.text.clone(), r.foreground, r.background)).collect();
    assert_eq!(a, b);
    assert_eq!(
        a,
        vec![
            ("boom (x12)".to_string(), Brush::Error, Brush::Light),
            ("w".to_string(), Brush::Warning, Brush::Dark)
        ]
    );
}

#[test]
fn counted_label_has_decimal_count() {
    let item = ViewItem { kind: Kind::Information, content: "tick".to_string(), count: 1000 };
    let row = render_row(&item, 3);
    assert_eq!(row.text, "tick (x1000)");
    assert_eq!(row.foreground, Brush::Information);
    assert_eq!(row.background, Brush::Dark);
}

#[test]
fn ui_message_handling() {
    let mut w = LogChildOsWindow::new(10);
    let to_widget = UiMessage::CheckBox { target: Toggle::Info, from_widget: false, checked: Some(false) };
    assert!(w.handle_ui_message(&to_widget));
    assert!(w.filter().info);
    assert!(!w.handle_ui_message(&UiMessage::Other));
    let undetermined = UiMessage::CheckBox { target: Toggle::Game, from_widget: true, checked: None };
    assert!(w.handle_ui_message(&undetermined));
    assert!(!w.filter().game);
    let other = UiMessage::CheckBox { target: Toggle::Other, from_widget: true, checked: Some(false) };
    assert!(w.handle_ui_message(&other));
    assert_eq!(w.filter().snapshot(), (true, true, true, true, false));
}

#[test]
fn quiet_tick_does_no_view_work() {
    let mut w = LogChildOsWindow::new(10);
    assert!(w.update(vec![], vec![]).is_none());
    assert!(w.update(vec![], vec![UiMessage::Other]).is_none());
    assert!(w.update(vec![rec(Kind::Information, "x")], vec![]).is_some());
}

#[test]
fn filter_setters() {
    let mut f = Filter::new();
    assert_eq!(f.snapshot(), (true, true, true, true, true));
    f.set_kind(Kind::Error, false);
    f.set_source(Source::Engine, false);
    assert_eq!(f.snapshot(), (true, true, false, false, true));
    assert!(!f.admits_kind_exec(Kind::Error));
    assert!(f.admits_kind_exec(Kind::Warning));
}

#[test]
fn marker_split_by_marker_is_stripped_too() {
    let (src, r) = classify(rec(Kind::Information, "[__GA[__GAME__]ME__]"));
    assert_eq!(src, Source::Game);
    assert_eq!(r.content, "");
    let (src, r) = classify(rec(Kind::Information, "x[[__GAME__]__GAME__]y"));
    assert_eq!(src, Source::Game);
    assert_eq!(r.content, "xy");
}

#[test]
fn marker_prefix_is_stripped() {
    let mut w = LogChildOsWindow::new(5);
    w.ingest(rec(Kind::Warning, "[__GAME__]loaded level"));
    let g = w.game_ring();
    assert_eq!(g.get(g.len() - 1).content, "loaded level");
    assert_eq!(w.engine_ring().len(), 0);
}

#[test]
fn order_follows_arrival_for_distinct_keys() {
    let mut w = LogChildOsWindow::new(10);
    let view = w
        .update(
            vec![
                rec(Kind::Information, "[__GAME__]g1"),
                rec(Kind::Error, "[__GAME__]g2"),
                rec(Kind::Information, "e1"),
                rec(Kind::Warning, "e2"),
                rec(Kind::Information, "e3"),
            ],
            vec![],
        )
        .unwrap();
    let contents: Vec<String> = view.iter().map(|i| i.content.clone()).collect();
    assert_eq!(contents, vec!["e1", "e2", "e3", "g1", "g2"]);
}

#[test]
fn checkbox_handles_decode_to_toggles() {
    let c = CheckBoxes { info: 10, warning: 11, error: 12, engine: 13, game: 14 };
    assert_eq!(c.toggle_for(10), Toggle::Info);
    assert_eq!(c.toggle_for(12), Toggle::Error);
    assert_eq!(c.toggle_for(14), Toggle::Game);
    assert_eq!(c.toggle_for(99), Toggle::Other);
}
