use vstd::prelude::*;

use crate::calendar::{
    bonus_day, bonus_day_spec, is_first_date, is_last_date, lemma_next_date_valid, next_date, on_or_after,
    succ_date, valid_date, Date,
};
use crate::strings::{safe_text, PointTransition};
use crate::text::{decimal, digit_char, push_char, push_decimal, push_signed_decimal, push_str, signed_decimal};

verus! {

broadcast use vstd::seq_lib::group_to_multiset_ensures;

/// A member's stored balance: member id and coins.
pub type Record = (i64, i32);

/// Ranking order: more coins first, then the smaller id first.
pub open spec fn ranks_before(a: Record, b: Record) -> bool {
    a.1 > b.1 || (a.1 == b.1 && a.0 <= b.0)
}

/// The records are in ranking order.
pub open spec fn in_ranking_order(s: Seq<Record>) -> bool {
    forall|i: int, j: int| 0 <= i < j < s.len() ==> ranks_before(#[trigger] s[i], #[trigger] s[j])
}

/// The records in ranking order: the same records, more coins first and,
/// among equal balances, smaller ids first.
pub fn sort_records(records: &Vec<Record>) -> (r: Vec<Record>)
    ensures
        in_ranking_order(r@),
        r@.to_multiset() == records@.to_multiset(),
{
    let mut r: Vec<Record> = Vec::new();
    let mut i: usize = 0;
    assert(records@.take(0) =~= Seq::<Record>::empty());
    while i < records.len()
        invariant
            i <= records@.len(),
            in_ranking_order(r@),
            r@.to_multiset() == records@.take(i as int).to_multiset(),
        decreases records@.len() - i,
    {
        let x = records[i];
        let mut p: usize = 0;
        while p < r.len() && (r[p].1 > x.1 || (r[p].1 == x.1 && r[p].0 <= x.0))
            invariant
                p <= r@.len(),
                in_ranking_order(r@),
                forall|k: int| 0 <= k < p ==> ranks_before(#[trigger] r@[k], x),
            decreases r@.len() - p,
        {
            p += 1;
        }
        let ghost old_r = r@;
        r.insert(p, x);
        assert(r@ == old_r.insert(p as int, x));
        assert forall|a: int, b: int| 0 <= a < b < r@.len() implies ranks_before(
            #[trigger] r@[a],
            #[trigger] r@[b],
        ) by {
            if b < p {
                assert(r@[a] == old_r[a] && r@[b] == old_r[b]);
            } else if b == p {
                assert(r@[a] == old_r[a]);
            } else if a == p {
                assert(r@[b] == old_r[b - 1]);
                assert(!ranks_before(old_r[p as int], x));
                if b - 1 > p {
                    assert(ranks_before(old_r[p as int], old_r[b - 1]));
                }
            } else if a < p {
                assert(r@[a] == old_r[a] && r@[b] == old_r[b - 1]);
            } else {
                assert(r@[a] == old_r[a - 1] && r@[b] == old_r[b - 1]);
            }
        }
        assert(records@.take(i + 1) =~= records@.take(i as int).push(x));
        assert(r@.to_multiset() == old_r.to_multiset().insert(x));
        i += 1;
    }
    assert(records@.take(i as int) =~= records@);
    r
}

/// Where the run of equal balances that holds position `i` starts.
pub open spec fn run_start(s: Seq<Record>, i: int) -> int
    decreases i,
{
    if i <= 0 {
        0
    } else if s[i - 1].1 == s[i].1 {
        run_start(s, i - 1)
    } else {
        i
    }
}

/// The rank shown at position `i` of the ranking: one more than the position
/// where its run of equal balances starts, so that ties share a rank; a
/// balance of `i32::MAX` is shown as rank 2.
pub open spec fn rank_at(s: Seq<Record>, i: int) -> int {
    if s[i].1 == i32::MAX {
        2
    } else {
        run_start(s, i) + 1
    }
}

/// The number of ranking pages for `n` members, ten to a page.
pub open spec fn page_count(n: nat) -> nat {
    (n + 9) / 10
}

/// One line of a ranking page: its text up to the mention, and whom to mention.
pub struct RankLine {
    pub text: String,
    pub member: i64,
}

/// The text of a ranking line up to the mention: `<rank>位 <coins>枚: `.
pub open spec fn rank_line_text(rank: int, coins: int) -> Seq<char> {
    decimal(rank as nat) + "位 "@ + signed_decimal(coins) + "枚: "@
}

/// The lines of page `page` (from 0) of the ranking `s`.
pub open spec fn page_lines(s: Seq<Record>, page: int) -> Seq<(Seq<char>, i64)> {
    Seq::new(
        (if s.len() <= 10 * page { 0 } else if s.len() - 10 * page >= 10 { 10 } else { s.len() - 10 * page }) as nat,
        |k: int| (rank_line_text(rank_at(s, 10 * page + k), s[10 * page + k].1 as int), s[10 * page + k].0),
    )
}

/// The text and member of each line.
pub open spec fn lines_view(v: Seq<RankLine>) -> Seq<(Seq<char>, i64)> {
    v.map_values(|l: RankLine| (l.text@, l.member))
}

/// Whether page `page` (counted from 1) exists for `members` members:
/// `Ok` with the page counted from 0, or the reply that it does not exist.
pub fn check_ranking_page(page: usize, members: usize) -> (r: Result<usize, String>)
    requires
        members + 9 <= usize::MAX,
    ensures
        match r {
            Ok(p) => 1 <= page <= page_count(members as nat) && p == page - 1,
            Err(reply) => !(1 <= page <= page_count(members as nat)) && reply@ == decimal(page as nat)
                + "ページ目は存在しません"@,
        },
{
    let pages = (members + 9) / 10;
    if !(1 <= page && page <= pages) {
        let mut reply = String::new();
        push_decimal(&mut reply, page as u64);
        push_str(&mut reply, "ページ目は存在しません");
        return Err(reply);
    }
    Ok(page - 1)
}

/// The title of page `page` (from 0) out of `pages`:
/// `所持コインランキング (<page + 1>/<pages>ページ)`.
pub fn ranking_title(page: usize, pages: usize) -> (t: String)
    requires
        page < pages,
    ensures
        t@ == "所持コインランキング ("@ + decimal((page + 1) as nat) + "/"@ + decimal(pages as nat)
            + "ページ)"@,
{
    let mut t = String::new();
    push_str(&mut t, "所持コインランキング (");
    push_decimal(&mut t, (page + 1) as u64);
    push_str(&mut t, "/");
    push_decimal(&mut t, pages as u64);
    push_str(&mut t, "ページ)");
    t
}

/// The lines of page `page` (from 0) of the coin ranking of `records`: the
/// records are put in ranking order, ranked with ties sharing a rank, and
/// the ten of the page are written out.
pub fn ranking_lines(records: &Vec<Record>, page: usize) -> (r: (Vec<Record>, Vec<RankLine>))
    requires
        10 * page + 10 <= usize::MAX,
    ensures
        in_ranking_order(r.0@),
        r.0@.to_multiset() == records@.to_multiset(),
        lines_view(r.1@) == page_lines(r.0@, page as int),
{
    let sorted = sort_records(records);
    let ghost s = sorted@;
    let mut lines: Vec<RankLine> = Vec::new();
    let mut prev_rank_start: usize = 1;
    let mut prev_point: i32 = i32::MAX;
    let mut i: usize = 0;
    let lo = 10 * page;
    let hi = 10 * page + 10;
    while i < sorted.len()
        invariant
            s == sorted@,
            in_ranking_order(s),
            i <= s.len(),
            lo == 10 * page,
            hi == lo + 10,
            i == 0 ==> prev_rank_start == 1 && prev_point == i32::MAX,
            i > 0 ==> prev_point == s[i - 1].1,
            i > 0 && s[i - 1].1 < i32::MAX ==> prev_rank_start == run_start(s, i - 1),
            i > 0 && s[i - 1].1 == i32::MAX ==> prev_rank_start == 1,
            prev_rank_start <= i + 1,
            lines_view(lines@) == page_lines(s.take(i as int), page as int),
        decreases s.len() - i,
    {
        let (id, point) = sorted[i];
        if i > 0 {
            assert(ranks_before(s[i - 1], s[i as int]));
        }
        if point < prev_point {
            prev_rank_start = i;
            prev_point = point;
        }
        let ghost ti = s.take(i as int);
        let ghost tn = s.take(i + 1);
        assert forall|k: int| 0 <= k <= i implies run_start(tn, k) == run_start(s, k) by {
            lemma_run_start_prefix(s, i + 1, k);
        }
        assert(prev_rank_start + 1 == rank_at(s, i as int));
        if lo <= i && i < hi {
            let mut text = String::new();
            push_decimal(&mut text, (prev_rank_start + 1) as u64);
            push_str(&mut text, "位 ");
            push_signed_decimal(&mut text, point as i64);
            push_str(&mut text, "枚: ");
            let ghost before = lines@;
            lines.push(RankLine { text, member: id });
            assert(lines_view(lines@) =~= lines_view(before).push((text@, id)));
        }
        assert forall|k: int| 0 <= k < i implies rank_at(tn, k) == rank_at(s, k) && rank_at(ti, k)
            == rank_at(s, k) by {
            lemma_run_start_prefix(s, i as int, k);
            lemma_run_start_prefix(s, i + 1, k);
        }
        assert(lines_view(lines@) =~= page_lines(tn, page as int));
        i += 1;
    }
    assert(s.take(i as int) =~= s);
    (sorted, lines)
}

/// Where a run starts does not depend on what comes after it.
proof fn lemma_run_start_prefix(s: Seq<Record>, n: int, k: int)
    requires
        0 <= k < n <= s.len(),
    ensures
        run_start(s.take(n), k) == run_start(s, k),
    decreases k,
{
    if k > 0 {
        lemma_run_start_prefix(s, n, k - 1);
    }
}

/// The announcement line of a transition, as `PointTransition::render`
/// writes it: `<safe name>の所持コイン：<before>→<after>`.
pub open spec fn transition_text(name: Seq<char>, before: int, after: int) -> Seq<char> {
    safe_text(name) + "の所持コイン："@ + signed_decimal(before) + "→"@ + signed_decimal(after)
}

/// The refusal for an amount that is not a positive number.
pub open spec fn not_positive_text() -> Seq<char> {
    "自然数を指定してください"@
}

/// The refusal for a member who has fewer coins than the amount.
pub open spec fn not_enough_text(coins: int) -> Seq<char> {
    "所持コインが足りないため実行できません(所持コイン枚数:"@ + signed_decimal(coins) + ")"@
}

/// Builds a string from a literal.
fn text_of(t: &str) -> (s: String)
    ensures
        s@ == t@,
{
    let mut s = String::new();
    push_str(&mut s, t);
    s
}

/// The reply refusing a transfer before any balance is looked at: to a bot,
/// or of an amount that is not positive; `None` when the transfer may go on.
pub fn transfer_precheck(target_is_bot: bool, value: i32) -> (r: Option<String>)
    ensures
        match r {
            Some(reply) => (target_is_bot && reply@ == "botには譲渡できません"@) || (!target_is_bot
                && value <= 0 && reply@ == not_positive_text()),
            None => !target_is_bot && value > 0,
        },
{
    if target_is_bot {
        return Some(text_of("botには譲渡できません"));
    }
    if value <= 0 {
        return Some(text_of("自然数を指定してください"));
    }
    None
}

/// The result of a coin operation on balances: refused with a reply, or done
/// with the new balances and the reply.
pub enum Settlement {
    Refused(String),
    Done { sender: i32, receiver: i32, reply: String },
}

/// What a transfer of `value` coins from a member holding `sender` to a
/// member holding `receiver` gives: refused when the sender has fewer coins
/// than the amount, else both new balances and the announcement.
pub open spec fn transfer_spec(
    sender_name: Seq<char>,
    receiver_name: Seq<char>,
    value: int,
    sender: int,
    receiver: int,
) -> (bool, int, int, Seq<char>) {
    if sender < value {
        (false, sender, receiver, not_enough_text(sender))
    } else {
        (
            true,
            sender - value,
            receiver + value,
            safe_text(receiver_name) + "に"@ + signed_decimal(value) + "枚譲渡しました\n"@
                + transition_text(sender_name, sender, sender - value) + "\n"@ + transition_text(
                receiver_name,
                receiver,
                receiver + value,
            ),
        )
    }
}

/// The view of a settlement: whether it was done, the two balances, and the reply.
pub open spec fn settlement_view(s: Settlement, sender: int, receiver: int) -> (bool, int, int, Seq<char>) {
    match s {
        Settlement::Refused(reply) => (false, sender, receiver, reply@),
        Settlement::Done { sender: a, receiver: b, reply } => (true, a as int, b as int, reply@),
    }
}

/// Transfers `value` coins from the member called `sender_name`, who holds
/// `sender`, to the member called `receiver_name`, who holds `receiver`.
pub fn transfer_settle(
    sender_name: &str,
    receiver_name: &str,
    value: i32,
    sender: i32,
    receiver: i32,
) -> (r: Settlement)
    requires
        value > 0,
        sender >= value ==> receiver + value <= i32::MAX,
    ensures
        settlement_view(r, sender as int, receiver as int) == transfer_spec(
            sender_name@,
            receiver_name@,
            value as int,
            sender as int,
            receiver as int,
        ),
{
    if sender < value {
        let mut reply = text_of("所持コインが足りないため実行できません(所持コイン枚数:");
        push_signed_decimal(&mut reply, sender as i64);
        push_str(&mut reply, ")");
        return Settlement::Refused(reply);
    }
    let sender_line = PointTransition::name(sender_name).before(sender).increase(-value);
    let receiver_line = PointTransition::name(receiver_name).before(receiver).increase(value);
    let mut reply = crate::strings::safe(receiver_name);
    push_str(&mut reply, "に");
    push_signed_decimal(&mut reply, value as i64);
    push_str(&mut reply, "枚譲渡しました\n");
    push_str(&mut reply, sender_line.render().as_str());
    push_str(&mut reply, "\n");
    push_str(&mut reply, receiver_line.render().as_str());
    Settlement::Done { sender: sender - value, receiver: receiver + value, reply }
}

/// A transfer that goes through moves exactly the amount: the sender loses
/// it, the receiver gains it, the total stays, and the sender is not left
/// with a negative balance when it started with none.
pub proof fn lemma_transfer_conserves(
    sender_name: Seq<char>,
    receiver_name: Seq<char>,
    value: int,
    sender: int,
    receiver: int,
)
    requires
        value > 0,
    ensures
        ({
            let (done, a, b, _) = transfer_spec(sender_name, receiver_name, value, sender, receiver);
            &&& done <==> sender >= value
            &&& done ==> a == sender - value && b == receiver + value
            &&& a + b == sender + receiver
            &&& a >= 0 || sender < 0
        }),
{
}

/// The reply refusing a bet of an amount that is not positive; `None` when
/// the bet may go on.
pub fn bet_precheck(value: i32) -> (r: Option<String>)
    ensures
        match r {
            Some(reply) => value <= 0 && reply@ == not_positive_text(),
            None => value > 0,
        },
{
    if value <= 0 {
        return Some(text_of("自然数を指定してください"));
    }
    None
}

/// What a bet of `value` coins by a member holding `coins` gives for a given
/// toss: refused when the member has fewer coins than the amount; else the
/// amount is won or lost, announced with the new balance.
pub open spec fn bet_spec(name: Seq<char>, coins: int, value: int, win: bool) -> (bool, int, Seq<char>) {
    if coins < value {
        (false, coins, not_enough_text(coins))
    } else if win {
        (true, coins + value, "おめでとう！あたり！\n"@ + transition_text(name, coins, coins + value))
    } else {
        (true, coins - value, "残念！はずれ！\n"@ + transition_text(name, coins, coins - value))
    }
}

/// The view of a bet's settlement: whether it was done, the new balance and the reply.
pub open spec fn bet_view(s: Settlement, coins: int) -> (bool, int, Seq<char>) {
    match s {
        Settlement::Refused(reply) => (false, coins, reply@),
        Settlement::Done { sender: a, receiver: _, reply } => (true, a as int, reply@),
    }
}

/// Settles a bet of `value` coins by the member called `name`, who holds
/// `coins`, for the toss `win`.
pub fn bet_settle(name: &str, coins: i32, value: i32, win: bool) -> (r: Settlement)
    requires
        value > 0,
        coins >= value && win ==> coins + value <= i32::MAX,
    ensures
        bet_view(r, coins as int) == bet_spec(name@, coins as int, value as int, win),
        r matches Settlement::Done { receiver, .. } ==> receiver == 0,
{
    if coins < value {
        let mut reply = text_of("所持コインが足りないため実行できません(所持コイン枚数:");
        push_signed_decimal(&mut reply, coins as i64);
        push_str(&mut reply, ")");
        return Settlement::Refused(reply);
    }
    let line = PointTransition::name(name).before(coins);
    let (after, mut reply) = if win {
        (coins + value, text_of("おめでとう！あたり！\n"))
    } else {
        (coins - value, text_of("残念！はずれ！\n"))
    };
    push_str(&mut reply, line.after(after).render().as_str());
    Settlement::Done { sender: after, receiver: 0, reply }
}

/// `rand::random::<bool>()`: a fair coin toss. Nothing is stated of the
/// outcome, which is random.
#[verifier::external_body]
fn coin_flip() -> bool {
    rand::random::<bool>()
}

/// A bet of `value` coins by the member called `name`, who holds `coins`,
/// decided by a random toss: the settlement, or `None` when the toss is won
/// and the new balance would not fit in an `i32`.
pub fn bet(name: &str, coins: i32, value: i32) -> (r: Option<Settlement>)
    requires
        value > 0,
    ensures
        match r {
            None => coins >= value && coins + value > i32::MAX,
            Some(s) => {
                &&& exists|win: bool| bet_view(s, coins as int) == bet_spec(name@, coins as int, value as int, win)
                &&& s matches Settlement::Done { receiver, .. } ==> receiver == 0
            },
        },
{
    let win = coin_flip();
    if win && coins >= value && coins > i32::MAX - value {
        return None;
    }
    Some(bet_settle(name, coins, value, win))
}

/// A bet changes the balance by exactly the amount, either way, and never
/// leaves a member who could afford it with a negative balance.
pub proof fn lemma_bet_moves_exactly_the_amount(name: Seq<char>, coins: int, value: int, win: bool)
    requires
        value > 0,
    ensures
        ({
            let (done, after, _) = bet_spec(name, coins, value, win);
            &&& done <==> coins >= value
            &&& done ==> (after == coins + value || after == coins - value)
            &&& done ==> after >= 0
            &&& !done ==> after == coins
        }),
{
}

/// A number below 100 in two digits.
pub open spec fn two_digits(n: nat) -> Seq<char> {
    seq![digit_char(n / 10), digit_char(n % 10)]
}

/// Appends `n` (below 100) in two digits.
fn push_two_digits(s: &mut String, n: u32)
    requires
        n < 100,
    ensures
        final(s)@ == old(s)@ + two_digits(n as nat),
{
    let ghost start = s@;
    let tens: u8 = (n / 10) as u8;
    let ones: u8 = (n % 10) as u8;
    push_char(s, (48u8 + tens) as char);
    push_char(s, (48u8 + ones) as char);
    assert(s@ =~= start + two_digits(n as nat));
}

/// The reply when today's bonus was taken already: the day (`MM/DD`) and
/// when the next one may be taken (`MM/DD-04:00` of the next day, when the
/// bot's day starts); `None` when the bonus may be taken.
pub open spec fn daily_refusal_text(last: Date, today: Date) -> Option<Seq<char>> {
    let next = next_date(today);
    if on_or_after(last, today) {
        Some(two_digits(today.month as nat) + "/"@ + two_digits(today.day as nat) + "の分は既に受け取っています。"@
            + two_digits(next.month as nat) + "/"@ + two_digits(next.day as nat) + "-04:00"@
            + "以降に再度使用してください"@)
    } else {
        None
    }
}

/// Whether the daily bonus may be taken at `hour` o'clock on `now` by a
/// member who last took it on `last`: it may once per bot day.
pub open spec fn daily_grants(last: Date, now: Date, hour: u32) -> bool {
    !on_or_after(last, bonus_day_spec(now, hour))
}

/// Asks for the daily bonus at `hour` o'clock on `now`, the member having
/// last taken it on `last`: the bot day it is granted for, or the reply
/// when it was taken already that day.
pub fn daily_check(last: Date, now: Date, hour: u32) -> (r: Result<Date, String>)
    requires
        valid_date(now),
        hour < 24,
        hour < 4 ==> !is_first_date(now),
        on_or_after(last, bonus_day_spec(now, hour)) ==> !is_last_date(bonus_day_spec(now, hour)),
    ensures
        match r {
            Ok(today) => today == bonus_day_spec(now, hour) && daily_grants(last, now, hour),
            Err(reply) => daily_refusal_text(last, bonus_day_spec(now, hour)) == Some(reply@),
        },
{
    let today = bonus_day(now, hour);
    let after = last.year > today.year || (last.year == today.year && (last.month > today.month || (
    last.month == today.month && last.day >= today.day)));
    if !after {
        return Ok(today);
    }
    proof {
        lemma_next_date_valid(today);
    }
    let next = succ_date(today);
    let mut reply = String::new();
    push_two_digits(&mut reply, today.month);
    push_str(&mut reply, "/");
    push_two_digits(&mut reply, today.day);
    push_str(&mut reply, "の分は既に受け取っています。");
    push_two_digits(&mut reply, next.month);
    push_str(&mut reply, "/");
    push_two_digits(&mut reply, next.day);
    push_str(&mut reply, "-04:00");
    push_str(&mut reply, "以降に再度使用してください");
    Err(reply)
}

/// The announcement of a daily bonus of `value` coins to the member called
/// `name`, who held `coins`.
pub open spec fn daily_text(name: Seq<char>, coins: int, value: int) -> Seq<char> {
    "デイリーボーナスを受け取りました！"@ + signed_decimal(value) + "枚ゲット！\n"@ + transition_text(
        name,
        coins,
        coins + value,
    )
}

/// Grants the daily bonus `value` for the bot day `today` to the member
/// called `name`, who holds `coins`: the new balance, the new day of the
/// last bonus, and the announcement.
pub fn daily_claim(name: &str, coins: i32, value: i32, today: Date) -> (r: (i32, Date, String))
    requires
        coins + value <= i32::MAX,
        coins + value >= i32::MIN,
    ensures
        r.0 == coins + value,
        r.1 == today,
        r.2@ == daily_text(name@, coins as int, value as int),
{
    let line = PointTransition::name(name).before(coins);
    let after = coins + value;
    let mut reply = text_of("デイリーボーナスを受け取りました！");
    push_signed_decimal(&mut reply, value as i64);
    push_str(&mut reply, "枚ゲット！\n");
    push_str(&mut reply, line.after(after).render().as_str());
    (after, today, reply)
}

/// Members with equal balances next to each other in the ranking share a
/// rank, and a larger balance never gets a larger rank than a smaller one
/// further down (below `i32::MAX`).
pub proof fn lemma_ties_share_rank(s: Seq<Record>, i: int)
    requires
        in_ranking_order(s),
        0 <= i,
        i + 1 < s.len(),
    ensures
        s[i].1 == s[i + 1].1 ==> rank_at(s, i) == rank_at(s, i + 1),
        s[i].1 > s[i + 1].1 ==> rank_at(s, i + 1) == i + 2,
{
    assert(ranks_before(s[i], s[i + 1]));
}

/// The bonus is granted at most once per bot day: after a grant records
/// its day as the day of the last bonus, a later request is granted only
/// on a strictly later bot day, and a request on the same bot day is
/// refused.
pub proof fn lemma_daily_once_per_day(last: Date, now1: Date, hour1: u32, now2: Date, hour2: u32)
    requires
        daily_grants(last, now1, hour1),
    ensures
        daily_grants(bonus_day_spec(now1, hour1), now2, hour2) ==> !on_or_after(
            bonus_day_spec(now1, hour1),
            bonus_day_spec(now2, hour2),
        ),
        bonus_day_spec(now2, hour2) == bonus_day_spec(now1, hour1) ==> !daily_grants(
            bonus_day_spec(now1, hour1),
            now2,
            hour2,
        ),
{
}

/// Whether `v` holds `x`.
fn holds(v: &Vec<i64>, x: i64) -> (b: bool)
    ensures
        b == v@.contains(x),
{
    let mut i: usize = 0;
    while i < v.len()
        invariant
            i <= v@.len(),
            forall|k: int| 0 <= k < i ==> v@[k] != x,
        decreases v@.len() - i,
    {
        if v[i] == x {
            assert(v@[i as int] == x);
            return true;
        }
        i += 1;
    }
    false
}

/// The member ids that have no stored balance yet: every id of `wanted`
/// not among `found`, each once, in the order they first appear.
pub fn missing_ids(wanted: &Vec<i64>, found: &Vec<i64>) -> (r: Vec<i64>)
    ensures
        forall|x: i64| r@.contains(x) <==> (wanted@.contains(x) && !found@.contains(x)),
        r@.no_duplicates(),
{
    let mut r: Vec<i64> = Vec::new();
    let mut i: usize = 0;
    while i < wanted.len()
        invariant
            i <= wanted@.len(),
            forall|x: i64| r@.contains(x) <==> (wanted@.take(i as int).contains(x) && !found@.contains(x)),
            r@.no_duplicates(),
        decreases wanted@.len() - i,
    {
        let x = wanted[i];
        let ghost prev = wanted@.take(i as int);
        let ghost t = wanted@.take(i + 1);
        assert forall|y: i64| t.contains(y) <==> (prev.contains(y) || y == x) by {
            if t.contains(y) {
                let k = choose|k: int| 0 <= k < t.len() && t[k] == y;
                if k < i {
                    assert(prev[k] == y);
                }
            }
            if prev.contains(y) {
                let k = choose|k: int| 0 <= k < i && prev[k] == y;
                assert(t[k] == y);
            }
            if y == x {
                assert(t[i as int] == x);
            }
        }
        let ghost before = r@;
        let in_found = holds(found, x);
        let in_r = holds(&r, x);
        if !in_found && !in_r {
            r.push(x);
            assert forall|y: i64| r@.contains(y) <==> (before.contains(y) || y == x) by {
                if r@.contains(y) {
                    let k = choose|k: int| 0 <= k < r@.len() && r@[k] == y;
                    if k < before.len() {
                        assert(before[k] == y);
                    }
                }
                if before.contains(y) {
                    let k = choose|k: int| 0 <= k < before.len() && before[k] == y;
                    assert(r@[k] == y);
                }
                if y == x {
                    assert(r@[before.len() as int] == x);
                }
            }
        }
        assert forall|y: i64| r@.contains(y) <==> (t.contains(y) && !found@.contains(y)) by {
            assert(t.contains(y) <==> (prev.contains(y) || y == x));
            assert(before.contains(y) <==> (prev.contains(y) && !found@.contains(y)));
            if !in_found && !in_r {
                assert(r@.contains(y) <==> (before.contains(y) || y == x));
            } else {
                assert(r@ == before);
                if y == x && in_r {
                    assert(before.contains(x));
                }
            }
        }
        i += 1;
    }
    assert(wanted@.take(i as int) =~= wanted@);
    r
}

/// The announcement of an owner adding `increase` coins to the member
/// called `name`, who held `coins`.
pub open spec fn grant_text(name: Seq<char>, coins: int, increase: int) -> Seq<char> {
    "所持コインに"@ + signed_decimal(increase) + "を加算しました。\n"@ + transition_text(
        name,
        coins,
        coins + increase,
    )
}

/// Adds `increase` coins (possibly negative) to the member called `name`,
/// who holds `coins`: the new balance and the announcement.
pub fn grant(name: &str, coins: i32, increase: i32) -> (r: (i32, String))
    requires
        i32::MIN <= coins + increase <= i32::MAX,
    ensures
        r.0 == coins + increase,
        r.1@ == grant_text(name@, coins as int, increase as int),
{
    let after = coins + increase;
    let line = PointTransition::name(name).increase(increase).after(after);
    let mut reply = text_of("所持コインに");
    push_signed_decimal(&mut reply, increase as i64);
    push_str(&mut reply, "を加算しました。\n");
    push_str(&mut reply, line.render().as_str());
    (after, reply)
}

} // verus!
