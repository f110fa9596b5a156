use sumire_bot::coins::{
    bet, bet_precheck, bet_settle, check_ranking_page, daily_check, daily_claim, missing_ids, ranking_lines,
    ranking_title, sort_records, transfer_precheck, transfer_settle, Settlement,
};
use sumire_bot::calendar::Date;

#[test]
fn records_are_sorted_by_coins_then_id() {
    let r = sort_records(&vec![(5, 10), (3, 20), (1, 10), (4, 0)]);
    assert_eq!(r, vec![(3, 20), (1, 10), (5, 10), (4, 0)]);
}

#[test]
fn ranks_are_shared_by_ties() {
    let (_, lines) = ranking_lines(&vec![(1, 50), (2, 30), (3, 30), (4, 10)], 0);
    let texts: Vec<String> = lines.iter().map(|l| l.text.clone()).collect();
    assert_eq!(texts, vec!["1位 50枚: ", "2位 30枚: ", "2位 30枚: ", "4位 10枚: "]);
    let ids: Vec<i64> = lines.iter().map(|l| l.member).collect();
    assert_eq!(ids, vec![1, 2, 3, 4]);
}

#[test]
fn the_largest_balance_is_ranked_second() {
    let (_, lines) = ranking_lines(&vec![(1, i32::MAX), (2, 5)], 0);
    assert_eq!(lines[0].text, "2位 2147483647枚: ");
    assert_eq!(lines[1].text, "2位 5枚: ");
}

#[test]
fn pages_hold_ten_lines() {
    let records: Vec<(i64, i32)> = (0..25).map(|i| (i as i64, 100 - i)).collect();
    let (_, first) = ranking_lines(&records, 0);
    assert_eq!(first.len(), 10);
    let (_, last) = ranking_lines(&records, 2);
    assert_eq!(last.len(), 5);
    assert_eq!(last[0].text, "21位 80枚: ");
    assert_eq!(last[0].member, 20);
}

#[test]
fn ranking_page_bounds() {
    assert_eq!(check_ranking_page(1, 25), Ok(0));
    assert_eq!(check_ranking_page(3, 25), Ok(2));
    assert_eq!(check_ranking_page(4, 25), Err("4ページ目は存在しません".to_string()));
    assert_eq!(check_ranking_page(0, 25), Err("0ページ目は存在しません".to_string()));
    assert_eq!(check_ranking_page(1, 0), Err("1ページ目は存在しません".to_string()));
    assert_eq!(ranking_title(2, 3), "所持コインランキング (3/3ページ)");
}

#[test]
fn transfer_refusals() {
    assert_eq!(transfer_precheck(true, 10), Some("botには譲渡できません".to_string()));
    assert_eq!(transfer_precheck(false, 0), Some("自然数を指定してください".to_string()));
    assert_eq!(transfer_precheck(false, 1), None);
    match transfer_settle("a", "b", 100, 99, 0) {
        Settlement::Refused(reply) => assert_eq!(reply, "所持コインが足りないため実行できません(所持コイン枚数:99)"),
        _ => panic!("expected a refusal"),
    }
}

#[test]
fn transfer_moves_coins() {
    match transfer_settle("かえる", "@everyone", 100, 150, 20) {
        Settlement::Done { sender, receiver, reply } => {
            assert_eq!((sender, receiver), (50, 120));
            assert_eq!(
                reply,
                "@\u{200b}everyoneに100枚譲渡しました\nかえるの所持コイン：150→50\n@\u{200b}everyoneの所持コイン：20→120"
            );
        },
        _ => panic!("expected a transfer"),
    }
}

#[test]
fn bets_win_or_lose_the_amount() {
    assert_eq!(bet_precheck(-3), Some("自然数を指定してください".to_string()));
    assert_eq!(bet_precheck(3), None);
    match bet_settle("a", 10, 4, true) {
        Settlement::Done { sender, reply, .. } => {
            assert_eq!(sender, 14);
            assert_eq!(reply, "おめでとう！あたり！\naの所持コイン：10→14");
        },
        _ => panic!("expected a win"),
    }
    match bet_settle("a", 10, 4, false) {
        Settlement::Done { sender, reply, .. } => {
            assert_eq!(sender, 6);
            assert_eq!(reply, "残念！はずれ！\naの所持コイン：10→6");
        },
        _ => panic!("expected a loss"),
    }
    assert!(matches!(bet_settle("a", 3, 4, true), Settlement::Refused(_)));
}

#[test]
fn daily_bonus_once_a_day() {
    let today = Date { year: 2024, month: 3, day: 9 };
    let yesterday = Date { year: 2024, month: 3, day: 8 };
    assert_eq!(daily_check(yesterday, today, 10), Ok(today));
    assert_eq!(
        daily_check(today, today, 10),
        Err("03/09の分は既に受け取っています。03/10-04:00以降に再度使用してください".to_string())
    );
    let (coins, last, reply) = daily_claim("かえる", 10, 111, today);
    assert_eq!(coins, 121);
    assert_eq!(last, today);
    assert_eq!(reply, "デイリーボーナスを受け取りました！111枚ゲット！\nかえるの所持コイン：10→121");
    assert!(daily_check(last, today, 23).is_err());
    assert_eq!(daily_check(last, Date { year: 2024, month: 3, day: 10 }, 4), Ok(Date { year: 2024, month: 3, day: 10 }));
}

#[test]
fn daily_day_changes_at_four() {
    let last = Date { year: 2024, month: 2, day: 29 };
    let now = Date { year: 2024, month: 3, day: 1 };
    assert_eq!(
        daily_check(last, now, 3),
        Err("02/29の分は既に受け取っています。03/01-04:00以降に再度使用してください".to_string())
    );
    assert_eq!(daily_check(last, now, 4), Ok(now));
    let new_year = Date { year: 2024, month: 1, day: 1 };
    assert_eq!(
        daily_check(Date { year: 2023, month: 12, day: 31 }, new_year, 1),
        Err("12/31の分は既に受け取っています。01/01-04:00以降に再度使用してください".to_string())
    );
}

#[test]
fn missing_ids_are_those_not_found() {
    assert_eq!(missing_ids(&vec![1, 2, 3, 2], &vec![2]), vec![1, 3]);
    assert_eq!(missing_ids(&vec![], &vec![2]), Vec::<i64>::new());
}

#[test]
fn bet_moves_the_stake_or_overflows_on_a_win() {
    for _ in 0..20 {
        match bet("a", 10, 4) {
            Some(Settlement::Done { sender, receiver, .. }) => {
                assert!(sender == 14 || sender == 6);
                assert_eq!(receiver, 0);
            },
            _ => panic!("expected a settled bet"),
        }
        assert!(matches!(bet("a", 3, 4), Some(Settlement::Refused(_))));
        match bet("a", i32::MAX, 1) {
            None => {},
            Some(Settlement::Done { sender, .. }) => assert_eq!(sender, i32::MAX - 1),
            _ => panic!("expected a loss or an overflow"),
        }
    }
}
