use vstd::prelude::*;

use crate::calendar::{valid_date, weekday_of, weekday_spec, Date, Weekday};
use crate::help::join;
use crate::text::{push_signed_decimal, push_str, signed_decimal};

verus! {

/// The anniversary achievements of the Seichi server fixed to a date.
pub open spec fn fixed_achievements(month: u32, day: u32) -> Seq<(i32, Seq<char>)> {
    if month == 1 && day == 1 {
        seq![(9001i32, "とある始まりの日"@)]
    } else if month == 2 && day == 3 {
        seq![(9006i32, "とあるお豆の絨毯爆撃の日"@)]
    } else if month == 2 && day == 11 {
        seq![(9007i32, "建国記念日"@)]
    } else if month == 2 && day == 14 {
        seq![(9008i32, "とあるカカオまみれの日"@)]
    } else if month == 3 && day == 3 {
        seq![(9010i32, "とある女の子の日"@)]
    } else if month == 3 && day == 14 {
        seq![(9011i32, "燃え尽きたカカオだらけの日"@)]
    } else if month == 4 && day == 1 {
        seq![(9014i32, "とある嘘の日"@)]
    } else if month == 4 && day == 15 {
        seq![(9015i32, "とある良い子の日"@)]
    } else if month == 4 && day == 22 {
        seq![(9016i32, "とある掃除デー"@)]
    } else if month == 5 && day == 5 {
        seq![(9018i32, "とある子供の日"@), (9019i32, "端午の節句"@)]
    } else if month == 6 && day == 12 {
        seq![(9022i32, "とある日記の日"@)]
    } else if month == 6 && day == 29 {
        seq![(9024i32, "とある生誕の日"@)]
    } else if month == 7 && day == 7 {
        seq![(9026i32, "七夕"@)]
    } else if month == 7 && day == 17 {
        seq![(9027i32, "とある東京の日"@)]
    } else if month == 7 && day == 29 {
        seq![(9028i32, "とある肉の日"@)]
    } else if month == 8 && day == 7 {
        seq![(9030i32, "とあるバナナの日"@)]
    } else if month == 8 && day == 21 {
        seq![(9031i32, "とあるJDの日"@)]
    } else if month == 8 && day == 29 {
        seq![(9032i32, "とある焼肉の日"@)]
    } else if month == 9 && day == 2 {
        seq![(9034i32, "とあるくじの日"@)]
    } else if month == 9 && day == 12 {
        seq![(9035i32, "とあるマラソンの日"@)]
    } else if month == 9 && day == 15 {
        seq![(9039i32, "とある月見の日"@)]
    } else if month == 9 && day == 21 {
        seq![(9037i32, "とある中秋の日"@), (9038i32, "とあるファッションショーの日"@)]
    } else if month == 9 && day == 29 {
        seq![(9036i32, "とあるふぐの日"@)]
    } else if month == 10 && day == 10 {
        seq![(9041i32, "とあるスポーツの日"@)]
    } else if month == 11 && day == 15 {
        seq![(9043i32, "とある七五三の日"@)]
    } else if month == 11 && day == 29 {
        seq![(9044i32, "とある特上の肉の日"@)]
    } else if month == 12 && day == 1 {
        seq![(9046i32, "とある年の暮れの日"@)]
    } else if month == 12 && day == 25 {
        seq![(9002i32, "とある聖夜の日"@), (9047i32, "とあるクリスマスの日"@)]
    } else if month == 12 && day == 31 {
        seq![(9003i32, "とある終わりの日"@)]
    } else {
        seq![]
    }
}

/// The achievements tied to the n-th weekday of a month: Mother's Day (the
/// second Sunday of May) and Father's Day (the third Sunday of June).
pub open spec fn weekday_achievements(month: u32, day: u32, weekday: Weekday) -> Seq<(i32, Seq<char>)> {
    let nth = (day - 1) / 7 + 1;
    if month == 5 && nth == 2 && weekday == Weekday::Sun {
        seq![(9020i32, "母の日"@)]
    } else if month == 6 && nth == 3 && weekday == Weekday::Sun {
        seq![(9023i32, "父の日"@)]
    } else {
        seq![]
    }
}

/// Every achievement of the day: those fixed to the date, those of the n-th
/// weekday, and the vernal equinox day (`equinox_day` of March).
pub open spec fn achievements_spec(month: u32, day: u32, weekday: Weekday, equinox_day: u32) -> Seq<(i32, Seq<char>)> {
    fixed_achievements(month, day) + weekday_achievements(month, day, weekday) + if month == 3 && day
        == equinox_day {
        seq![(3012i32, "春分の日"@)]
    } else {
        seq![]
    }
}

/// The view of a list of achievements.
pub open spec fn achievements_view(v: Seq<(i32, String)>) -> Seq<(i32, Seq<char>)> {
    v.map_values(|a: (i32, String)| (a.0, a.1@))
}

/// Appends an achievement.
fn push_achievement(v: &mut Vec<(i32, String)>, id: i32, name: &str)
    ensures
        achievements_view(final(v)@) == achievements_view(old(v)@).push((id, name@)),
{
    let mut s = String::new();
    push_str(&mut s, name);
    v.push((id, s));
    assert(achievements_view(v@) =~= achievements_view(old(v)@).push((id, name@)));
}

/// The anniversary achievements that can be unlocked on day `day` of month
/// `month`, a `weekday`; `equinox_day` is the day of March of this year's
/// vernal equinox.
pub fn achievements_on(month: u32, day: u32, weekday: Weekday, equinox_day: u32) -> (r: Vec<(i32, String)>)
    requires
        1 <= day,
    ensures
        achievements_view(r@) == achievements_spec(month, day, weekday, equinox_day),
{
    let mut r: Vec<(i32, String)> = Vec::new();
    if month == 1 && day == 1 {
        push_achievement(&mut r, 9001, "とある始まりの日");
    } else if month == 2 && day == 3 {
        push_achievement(&mut r, 9006, "とあるお豆の絨毯爆撃の日");
    } else if month == 2 && day == 11 {
        push_achievement(&mut r, 9007, "建国記念日");
    } else if month == 2 && day == 14 {
        push_achievement(&mut r, 9008, "とあるカカオまみれの日");
    } else if month == 3 && day == 3 {
        push_achievement(&mut r, 9010, "とある女の子の日");
    } else if month == 3 && day == 14 {
        push_achievement(&mut r, 9011, "燃え尽きたカカオだらけの日");
    } else if month == 4 && day == 1 {
        push_achievement(&mut r, 9014, "とある嘘の日");
    } else if month == 4 && day == 15 {
        push_achievement(&mut r, 9015, "とある良い子の日");
    } else if month == 4 && day == 22 {
        push_achievement(&mut r, 9016, "とある掃除デー");
    } else if month == 5 && day == 5 {
        push_achievement(&mut r, 9018, "とある子供の日");
        push_achievement(&mut r, 9019, "端午の節句");
    } else if month == 6 && day == 12 {
        push_achievement(&mut r, 9022, "とある日記の日");
    } else if month == 6 && day == 29 {
        push_achievement(&mut r, 9024, "とある生誕の日");
    } else if month == 7 && day == 7 {
        push_achievement(&mut r, 9026, "七夕");
    } else if month == 7 && day == 17 {
        push_achievement(&mut r, 9027, "とある東京の日");
    } else if month == 7 && day == 29 {
        push_achievement(&mut r, 9028, "とある肉の日");
    } else if month == 8 && day == 7 {
        push_achievement(&mut r, 9030, "とあるバナナの日");
    } else if month == 8 && day == 21 {
        push_achievement(&mut r, 9031, "とあるJDの日");
    } else if month == 8 && day == 29 {
        push_achievement(&mut r, 9032, "とある焼肉の日");
    } else if month == 9 && day == 2 {
        push_achievement(&mut r, 9034, "とあるくじの日");
    } else if month == 9 && day == 12 {
        push_achievement(&mut r, 9035, "とあるマラソンの日");
    } else if month == 9 && day == 15 {
        push_achievement(&mut r, 9039, "とある月見の日");
    } else if month == 9 && day == 21 {
        push_achievement(&mut r, 9037, "とある中秋の日");
        push_achievement(&mut r, 9038, "とあるファッションショーの日");
    } else if month == 9 && day == 29 {
        push_achievement(&mut r, 9036, "とあるふぐの日");
    } else if month == 10 && day == 10 {
        push_achievement(&mut r, 9041, "とあるスポーツの日");
    } else if month == 11 && day == 15 {
        push_achievement(&mut r, 9043, "とある七五三の日");
    } else if month == 11 && day == 29 {
        push_achievement(&mut r, 9044, "とある特上の肉の日");
    } else if month == 12 && day == 1 {
        push_achievement(&mut r, 9046, "とある年の暮れの日");
    } else if month == 12 && day == 25 {
        push_achievement(&mut r, 9002, "とある聖夜の日");
        push_achievement(&mut r, 9047, "とあるクリスマスの日");
    } else if month == 12 && day == 31 {
        push_achievement(&mut r, 9003, "とある終わりの日");
    }
    let ghost fixed = achievements_view(r@);
    assert(fixed =~= fixed_achievements(month, day));
    let nth = (day - 1) / 7 + 1;
    let sunday = match weekday {
        Weekday::Sun => true,
        _ => false,
    };
    if month == 5 && nth == 2 && sunday {
        push_achievement(&mut r, 9020, "母の日");
    } else if month == 6 && nth == 3 && sunday {
        push_achievement(&mut r, 9023, "父の日");
    }
    assert(achievements_view(r@) =~= fixed + weekday_achievements(month, day, weekday));
    let ghost both = achievements_view(r@);
    if month == 3 && day == equinox_day {
        push_achievement(&mut r, 3012, "春分の日");
    }
    assert(achievements_view(r@) =~= achievements_spec(month, day, weekday, equinox_day));
    r
}

/// The anniversary achievements that can be unlocked on `today`;
/// `equinox_day` is the day of March of this year's vernal equinox.
pub fn search_today_achievements(today: Date, equinox_day: u32) -> (r: Vec<(i32, String)>)
    requires
        valid_date(today),
    ensures
        achievements_view(r@) == achievements_spec(
            today.month,
            today.day,
            weekday_spec(today),
            equinox_day,
        ),
{
    let weekday = weekday_of(today);
    achievements_on(today.month, today.day, weekday, equinox_day)
}

/// The ids of the achievements, separated by commas.
pub open spec fn id_list(a: Seq<(i32, Seq<char>)>) -> Seq<char> {
    join(a.map_values(|x: (i32, Seq<char>)| signed_decimal(x.0 as int)), ","@)
}

/// The names of the achievements in 「」, separated by と.
pub open spec fn name_list(a: Seq<(i32, Seq<char>)>) -> Seq<char> {
    join(a.map_values(|x: (i32, Seq<char>)| "「"@ + x.1 + "」"@), "と"@)
}

/// The description of the morning notice for the day's achievements.
pub open spec fn notice_text(a: Seq<(i32, Seq<char>)>) -> Seq<char> {
    "本日は "@ + name_list(a) + "です\n実績No"@ + id_list(a) + "を解除していない人は忘れずに解除しましょう"@
}

/// The description of the morning notice: the day's achievements by name and
/// by number; `None` when there are none, and no notice is sent.
pub fn achievement_notice(achieves: &Vec<(i32, String)>) -> (r: Option<String>)
    ensures
        match r {
            Some(text) => achieves@.len() > 0 && text@ == notice_text(achievements_view(achieves@)),
            None => achieves@.len() == 0,
        },
{
    if achieves.len() == 0 {
        return None;
    }
    let mut ids = String::new();
    let mut names = String::new();
    let mut i: usize = 0;
    while i < achieves.len()
        invariant
            i <= achieves@.len(),
            ids@ == id_list(achievements_view(achieves@.take(i as int))),
            names@ == name_list(achievements_view(achieves@.take(i as int))),
        decreases achieves@.len() - i,
    {
        let ghost next = achievements_view(achieves@.take(i + 1));
        assert(next.drop_last() =~= achievements_view(achieves@.take(i as int)));
        assert(next.last() == (achieves@[i as int].0, achieves@[i as int].1@));
        assert(next.map_values(|x: (i32, Seq<char>)| signed_decimal(x.0 as int)).drop_last()
            =~= achievements_view(achieves@.take(i as int)).map_values(
            |x: (i32, Seq<char>)| signed_decimal(x.0 as int),
        ));
        assert(next.map_values(|x: (i32, Seq<char>)| "「"@ + x.1 + "」"@).drop_last()
            =~= achievements_view(achieves@.take(i as int)).map_values(
            |x: (i32, Seq<char>)| "「"@ + x.1 + "」"@,
        ));
        if i > 0 {
            push_str(&mut ids, ",");
            push_str(&mut names, "と");
        }
        push_signed_decimal(&mut ids, achieves[i].0 as i64);
        push_str(&mut names, "「");
        push_str(&mut names, achieves[i].1.as_str());
        push_str(&mut names, "」");
        if i == 0 {
            assert(ids@ =~= id_list(next));
            assert(names@ =~= name_list(next));
        } else {
            assert(ids@ =~= id_list(next));
            assert(names@ =~= name_list(next));
        }
        i += 1;
    }
    assert(achieves@.take(i as int) =~= achieves@);
    let mut text = String::new();
    push_str(&mut text, "本日は ");
    push_str(&mut text, names.as_str());
    push_str(&mut text, "です\n実績No");
    push_str(&mut text, ids.as_str());
    push_str(&mut text, "を解除していない人は忘れずに解除しましょう");
    Some(text)
}

/// The task due at a given minute: the morning routine at 0:00 and the
/// evening reminder at 22:00.
#[derive(Clone, Copy, Debug, PartialEq, Eq, Structural)]
pub enum Task {
    Morning,
    Evening,
}

/// The task due at `hour`:`minute`, if any.
pub open spec fn task_spec(hour: u32, minute: u32) -> Option<Task> {
    if minute != 0 {
        None
    } else if hour == 0 {
        Some(Task::Morning)
    } else if hour == 22 {
        Some(Task::Evening)
    } else {
        None
    }
}

/// The task due at `hour`:`minute`: the hourly step runs on the hour, and
/// the morning routine at 0 o'clock, the evening reminder at 22 o'clock.
pub fn task_due(hour: u32, minute: u32) -> (r: Option<Task>)
    ensures
        r == task_spec(hour, minute),
{
    if minute == 0 {
        if hour == 0 {
            return Some(Task::Morning);
        } else if hour == 22 {
            return Some(Task::Evening);
        }
    }
    None
}

/// Tasks run only on the hour: the morning routine exactly at 0:00, the
/// evening reminder exactly at 22:00, and nothing at any other minute.
pub proof fn lemma_tasks_only_on_the_hour(hour: u32, minute: u32)
    ensures
        minute != 0 ==> task_spec(hour, minute) is None,
        (task_spec(hour, minute) == Some(Task::Morning)) <==> (hour == 0 && minute == 0),
        (task_spec(hour, minute) == Some(Task::Evening)) <==> (hour == 22 && minute == 0),
        task_spec(hour, minute) is None <==> !((hour == 0 || hour == 22) && minute == 0),
{
}

/// The anniversary calendar: on each of these dates, whatever the weekday
/// (and, in March, unless it is the equinox day), exactly these
/// achievements can be unlocked.
pub proof fn lemma_fixed_anniversaries(w: Weekday, e: u32)
    ensures
        achievements_spec(1, 1, w, e) == seq![(9001i32, "とある始まりの日"@)],
        achievements_spec(2, 3, w, e) == seq![(9006i32, "とあるお豆の絨毯爆撃の日"@)],
        achievements_spec(2, 11, w, e) == seq![(9007i32, "建国記念日"@)],
        achievements_spec(2, 14, w, e) == seq![(9008i32, "とあるカカオまみれの日"@)],
        e != 3 ==> achievements_spec(3, 3, w, e) == seq![(9010i32, "とある女の子の日"@)],
        e != 14 ==> achievements_spec(3, 14, w, e) == seq![(9011i32, "燃え尽きたカカオだらけの日"@)],
        achievements_spec(4, 1, w, e) == seq![(9014i32, "とある嘘の日"@)],
        achievements_spec(4, 15, w, e) == seq![(9015i32, "とある良い子の日"@)],
        achievements_spec(4, 22, w, e) == seq![(9016i32, "とある掃除デー"@)],
        achievements_spec(5, 5, w, e) == seq![(9018i32, "とある子供の日"@), (9019i32, "端午の節句"@)],
        achievements_spec(6, 12, w, e) == seq![(9022i32, "とある日記の日"@)],
        achievements_spec(6, 29, w, e) == seq![(9024i32, "とある生誕の日"@)],
        achievements_spec(7, 7, w, e) == seq![(9026i32, "七夕"@)],
        achievements_spec(7, 17, w, e) == seq![(9027i32, "とある東京の日"@)],
        achievements_spec(7, 29, w, e) == seq![(9028i32, "とある肉の日"@)],
        achievements_spec(8, 7, w, e) == seq![(9030i32, "とあるバナナの日"@)],
        achievements_spec(8, 21, w, e) == seq![(9031i32, "とあるJDの日"@)],
        achievements_spec(8, 29, w, e) == seq![(9032i32, "とある焼肉の日"@)],
        achievements_spec(9, 2, w, e) == seq![(9034i32, "とあるくじの日"@)],
        achievements_spec(9, 12, w, e) == seq![(9035i32, "とあるマラソンの日"@)],
        achievements_spec(9, 15, w, e) == seq![(9039i32, "とある月見の日"@)],
        achievements_spec(9, 21, w, e) == seq![(9037i32, "とある中秋の日"@), (9038i32, "とあるファッションショーの日"@)],
        achievements_spec(9, 29, w, e) == seq![(9036i32, "とあるふぐの日"@)],
        achievements_spec(10, 10, w, e) == seq![(9041i32, "とあるスポーツの日"@)],
        achievements_spec(11, 15, w, e) == seq![(9043i32, "とある七五三の日"@)],
        achievements_spec(11, 29, w, e) == seq![(9044i32, "とある特上の肉の日"@)],
        achievements_spec(12, 1, w, e) == seq![(9046i32, "とある年の暮れの日"@)],
        achievements_spec(12, 25, w, e) == seq![(9002i32, "とある聖夜の日"@), (9047i32, "とあるクリスマスの日"@)],
        achievements_spec(12, 31, w, e) == seq![(9003i32, "とある終わりの日"@)],
{
}

/// Mother's Day is the second Sunday of May and Father's Day the third
/// Sunday of June; no other day of those weeks has an achievement.
pub proof fn lemma_parents_days(day: u32, w: Weekday, e: u32)
    ensures
        8 <= day <= 14 ==> achievements_spec(5, day, w, e) == if w == Weekday::Sun {
            seq![(9020i32, "母の日"@)]
        } else {
            Seq::<(i32, Seq<char>)>::empty()
        },
        15 <= day <= 21 ==> achievements_spec(6, day, w, e) == if w == Weekday::Sun {
            seq![(9023i32, "父の日"@)]
        } else {
            Seq::<(i32, Seq<char>)>::empty()
        },
        (1 <= day <= 7 || 15 <= day <= 31) && day != 5 ==> achievements_spec(5, day, w, e) == Seq::<(i32, Seq<char>)>::empty(),
{
    assert(seq![(9020i32, "母の日"@)] =~= Seq::<(i32, Seq<char>)>::empty() + seq![(9020i32, "母の日"@)]
        + Seq::<(i32, Seq<char>)>::empty());
    assert(seq![(9023i32, "父の日"@)] =~= Seq::<(i32, Seq<char>)>::empty() + seq![(9023i32, "父の日"@)]
        + Seq::<(i32, Seq<char>)>::empty());
    assert(Seq::<(i32, Seq<char>)>::empty() =~= Seq::<(i32, Seq<char>)>::empty() + Seq::<(i32, Seq<char>)>::empty()
        + Seq::<(i32, Seq<char>)>::empty());
}

/// The vernal equinox day is an anniversary of its own, listed after any
/// achievement fixed to the same date.
pub proof fn lemma_equinox_day(w: Weekday, e: u32)
    ensures
        achievements_spec(3, e, w, e) == fixed_achievements(3, e) + seq![(3012i32, "春分の日"@)],
        e != 3 && e != 14 ==> achievements_spec(3, e, w, e) == seq![(3012i32, "春分の日"@)],
{
    assert(fixed_achievements(3, e) + seq![(3012i32, "春分の日"@)] =~= fixed_achievements(3, e)
        + Seq::<(i32, Seq<char>)>::empty() + seq![(3012i32, "春分の日"@)]);
    if e != 3 && e != 14 {
        assert(seq![(3012i32, "春分の日"@)] =~= Seq::<(i32, Seq<char>)>::empty() + seq![(3012i32, "春分の日"@)]);
    }
}

} // verus!
