use sumire_bot::achievements::{achievement_notice, achievements_on, search_today_achievements, task_due, Task};
use sumire_bot::calendar::{bonus_day, weekday_of, Date, Weekday};
use sumire_bot::failures::{failure_reply, CommandFailure, FailureReply, IntErrorKind};
use sumire_bot::roles::{assignable_roles, drop_role, take_role, RoleDecision};

fn decision(d: RoleDecision) -> (bool, String) {
    match d {
        RoleDecision::Refuse(r) => (false, r),
        RoleDecision::Apply(r) => (true, r),
    }
}

#[test]
fn roles_can_be_taken_once() {
    let role = 959260056539496469u64;
    assert_eq!(decision(take_role(role, "お知らせ", &vec![])), (true, "お知らせを付与しました".to_string()));
    assert_eq!(decision(take_role(role, "お知らせ", &vec![role])), (false, "既に付与されています".to_string()));
    assert_eq!(decision(take_role(1, "admin", &vec![])), (false, "そのロールの操作はできません".to_string()));
}

#[test]
fn roles_can_be_dropped_when_held() {
    let role = 941684228624633896u64;
    assert_eq!(decision(drop_role(role, "破産", &vec![role])), (true, "破産を削除しました".to_string()));
    assert_eq!(decision(drop_role(role, "破産", &vec![])), (false, "そのロールは付与されていません".to_string()));
    assert_eq!(decision(drop_role(2, "x", &vec![2])), (false, "そのロールの操作はできません".to_string()));
    assert_eq!(assignable_roles().len(), 3);
}

fn ids(v: &[(i32, String)]) -> Vec<i32> {
    v.iter().map(|a| a.0).collect()
}

#[test]
fn achievements_of_fixed_days() {
    assert_eq!(ids(&achievements_on(1, 1, Weekday::Mon, 20)), vec![9001]);
    assert_eq!(ids(&achievements_on(12, 25, Weekday::Wed, 20)), vec![9002, 9047]);
    assert_eq!(ids(&achievements_on(6, 6, Weekday::Wed, 20)), Vec::<i32>::new());
}

#[test]
fn achievements_of_weekdays_and_equinox() {
    assert_eq!(ids(&achievements_on(5, 12, Weekday::Sun, 20)), vec![9020]);
    assert_eq!(ids(&achievements_on(5, 5, Weekday::Sun, 20)), vec![9018, 9019]);
    assert_eq!(ids(&achievements_on(6, 16, Weekday::Sun, 20)), vec![9023]);
    assert_eq!(ids(&achievements_on(3, 20, Weekday::Wed, 20)), vec![3012]);
    assert_eq!(ids(&achievements_on(3, 21, Weekday::Thu, 20)), Vec::<i32>::new());
}

#[test]
fn notice_lists_names_and_numbers() {
    let a = achievements_on(9, 21, Weekday::Sat, 20);
    assert_eq!(
        achievement_notice(&a),
        Some("本日は 「とある中秋の日」と「とあるファッションショーの日」です\n実績No9037,9038を解除していない人は忘れずに解除しましょう".to_string())
    );
    assert_eq!(achievement_notice(&vec![]), None);
}

#[test]
fn tasks_are_due_on_the_hour() {
    assert_eq!(task_due(0, 0), Some(Task::Morning));
    assert_eq!(task_due(22, 0), Some(Task::Evening));
    assert_eq!(task_due(22, 1), None);
    assert_eq!(task_due(12, 0), None);
}

fn text(r: FailureReply) -> String {
    match r {
        FailureReply::Text(t) => t,
        FailureReply::Embed { title, description } => format!("{}|{}", title, description),
    }
}

#[test]
fn failures_are_explained() {
    assert_eq!(text(failure_reply(&CommandFailure::MissingArgument)), "引数が足りません");
    assert_eq!(
        text(failure_reply(&CommandFailure::NotAnInteger("1.5".to_string(), IntErrorKind::InvalidDigit))),
        "引数として与えられた\"1\\.5\"を整数に変換できませんでした(無効な文字が含まれています)"
    );
    assert_eq!(text(failure_reply(&CommandFailure::MemberNotFound)), "メンバーが見つかりませんでした");
    assert_eq!(
        text(failure_reply(&CommandFailure::Other)),
        "エラーが発生しました|開発者に報告しました。修正をお待ちください"
    );
}

fn date(year: i32, month: u32, day: u32) -> Date {
    Date { year, month, day }
}

#[test]
fn achievements_of_a_date_use_its_weekday() {
    assert_eq!(ids(&search_today_achievements(date(2024, 5, 12), 20)), vec![9020]);
    assert_eq!(ids(&search_today_achievements(date(2023, 5, 14), 21)), vec![9020]);
    assert_eq!(ids(&search_today_achievements(date(2024, 5, 19), 20)), Vec::<i32>::new());
    assert_eq!(ids(&search_today_achievements(date(2024, 6, 16), 20)), vec![9023]);
    assert_eq!(ids(&search_today_achievements(date(2024, 3, 20), 20)), vec![3012]);
    assert_eq!(ids(&search_today_achievements(date(2024, 1, 1), 20)), vec![9001]);
}

#[test]
fn weekdays_of_dates() {
    assert_eq!(weekday_of(date(2024, 5, 12)), Weekday::Sun);
    assert_eq!(weekday_of(date(2000, 1, 1)), Weekday::Sat);
    assert_eq!(weekday_of(date(2024, 2, 29)), Weekday::Thu);
    assert_eq!(weekday_of(date(2023, 5, 14)), Weekday::Sun);
    assert_eq!(weekday_of(date(1, 1, 1)), Weekday::Mon);
    assert_eq!(weekday_of(date(0, 1, 1)), Weekday::Sat);
    assert_eq!(weekday_of(date(-1, 12, 31)), Weekday::Fri);
    assert_eq!(weekday_of(date(-400, 2, 29)), Weekday::Tue);
    assert_eq!(weekday_of(date(262142, 12, 31)), Weekday::Mon);
    assert_eq!(weekday_of(date(-262143, 1, 1)), Weekday::Thu);
}

#[test]
fn the_bot_day_starts_at_four() {
    assert_eq!(bonus_day(date(2024, 3, 9), 4), date(2024, 3, 9));
    assert_eq!(bonus_day(date(2024, 3, 9), 23), date(2024, 3, 9));
    assert_eq!(bonus_day(date(2024, 3, 9), 3), date(2024, 3, 8));
    assert_eq!(bonus_day(date(2024, 3, 1), 0), date(2024, 2, 29));
    assert_eq!(bonus_day(date(2023, 3, 1), 3), date(2023, 2, 28));
    assert_eq!(bonus_day(date(2024, 1, 1), 2), date(2023, 12, 31));
    assert_eq!(bonus_day(date(1900, 3, 1), 2), date(1900, 2, 28));
}
