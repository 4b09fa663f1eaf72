use chrono::Datelike;
use chrono::NaiveDate;
use cycles::{Date, Description, Interval, RenderArgs};

fn date(y: i32, m: u32, d: u32) -> Date {
    Date { days: NaiveDate::from_ymd_opt(y, m, d).unwrap().num_days_from_ce() as i64 }
}

fn monday() -> Description {
    Description {
        tags: vec![],
        label: "Every Monday".into(),
        description: None,
        color: None,
        start: date(2021, 04, 4),
        interval: Interval::Weekly,
        interval_multiplier: 1,
    }
}

#[test]
fn render_small() {
    let monday = monday();
    let datetime = date(2021, 04, 5);
    assert_eq!(
        RenderArgs {
            start_time: None,
            start_date: date(2021, 04, 4),
            end_date: date(2021, 04, 11),
            remaining_days: 6,
            bar_length: 6,
            bar_value: 1,
        },
        monday.render_arguments(Some(datetime))
    );

    let datetime = date(2021, 04, 6);
    assert_eq!(
        RenderArgs {
            start_time: None,
            start_date: date(2021, 04, 4),
            end_date: date(2021, 04, 11),
            remaining_days: 5,
            bar_length: 6,
            bar_value: 2,
        },
        monday.render_arguments(Some(datetime))
    );
}

#[test]
fn render_large() {
    let monday = monday();
    let datetime = date(2021, 04, 13);
    assert_eq!(
        RenderArgs {
            start_time: None,
            start_date: date(2021, 04, 11),
            end_date: date(2021, 04, 18),
            remaining_days: 5,
            bar_length: 6,
            bar_value: 2,
        },
        monday.render_arguments(Some(datetime))
    );
}

#[test]
fn render_boundary_at_start() {
    let monday = monday();
    let r = monday.render_arguments(Some(date(2021, 04, 4)));
    assert_eq!(r.start_date, date(2021, 04, 4));
    assert_eq!(r.end_date, date(2021, 04, 11));
    assert_eq!(r.remaining_days, 7);
    assert_eq!(r.bar_value, 0);
    assert_eq!(r.bar_length, 6);
}

#[test]
fn render_boundary_at_period_start() {
    let monday = monday();
    let r = monday.render_arguments(Some(date(2021, 04, 11)));
    assert_eq!(r.start_date, date(2021, 04, 11));
    assert_eq!(r.end_date, date(2021, 04, 18));
    assert_eq!(r.remaining_days, 7);
    assert_eq!(r.bar_value, 0);
}

#[test]
fn render_before_start_mirrors_after() {
    let monday = monday();
    let before = monday.render_arguments(Some(date(2021, 04, 1)));
    let after = monday.render_arguments(Some(date(2021, 04, 7)));
    assert_eq!(before, after);
    assert_eq!(before.remaining_days, 4);
    assert_eq!(before.bar_value, 3);
}

#[test]
fn render_monthly_as_four_weeks() {
    let mut monthly = monday();
    monthly.interval = Interval::Monthly;
    monthly.interval_multiplier = 2;
    let mut weekly = monday();
    weekly.interval = Interval::Weekly;
    weekly.interval_multiplier = 8;
    let reference = date(2021, 06, 20);
    assert_eq!(
        monthly.render_arguments(Some(reference)),
        weekly.render_arguments(Some(reference))
    );
    assert_eq!(monthly.render_arguments(Some(reference)).bar_length, 55);
}

#[test]
fn render_yearly_as_fifty_two_weeks() {
    let mut yearly = monday();
    yearly.interval = Interval::Yearly;
    let mut weekly = monday();
    weekly.interval_multiplier = 52;
    let reference = date(2022, 01, 30);
    assert_eq!(
        yearly.render_arguments(Some(reference)),
        weekly.render_arguments(Some(reference))
    );
    assert_eq!(yearly.render_arguments(Some(reference)).bar_length, 363);
}

#[test]
fn render_multi_week_period() {
    let mut fortnightly = monday();
    fortnightly.interval_multiplier = 2;
    let r = fortnightly.render_arguments(Some(date(2021, 04, 13)));
    assert_eq!(r.start_date, date(2021, 04, 4));
    assert_eq!(r.end_date, date(2021, 04, 18));
    assert_eq!(r.remaining_days, 5);
    assert_eq!(r.bar_value, 9);
    assert_eq!(r.bar_length, 13);
}

#[test]
fn render_default_reference_is_today() {
    let mut ongoing = monday();
    ongoing.start = date(2020, 01, 6);
    let r = ongoing.render_arguments(None);
    assert!(r.remaining_days >= 1 && r.remaining_days <= 7);
    assert_eq!(r.remaining_days + r.bar_value, 7);
}

#[test]
fn is_renderable_rejects_bad_multiplier() {
    let mut d = monday();
    assert!(d.is_renderable());
    d.interval_multiplier = 0;
    assert!(!d.is_renderable());
    d.interval_multiplier = -3;
    assert!(!d.is_renderable());
    d.interval_multiplier = 1_000_000_001;
    assert!(!d.is_renderable());
}

#[test]
fn description_clone_is_equal() {
    let mut d = monday();
    d.tags = vec!["health".into(), "health".into(), "daily".into()];
    d.description = Some("every single monday".into());
    d.color = Some("#aabbcc".into());
    let c = d.clone();
    assert_eq!(c, d);
}

#[test]
fn tags_filter_is_case_insensitive() {
    let tags: Vec<String> = vec!["Health".into(), "Daily".into()];
    assert!(cycles::tags_contain_value(&tags, "HEALTH"));
    assert!(cycles::tags_contain_value(&tags, "ail"));
    assert!(!cycles::tags_contain_value(&tags, "work"));
    assert!(cycles::tags_contain_value(&tags, ""));
    let empty: Vec<String> = vec![];
    assert!(!cycles::tags_contain_value(&empty, "x"));
}
