use vstd::prelude::*;

use crate::text::push_str;

verus! {

/// The roles members may take and drop themselves, with what each is for.
pub open spec fn assignable_roles_spec() -> Seq<(u64, Seq<char>)> {
    seq![
        (876675066329432114u64, "<#820939592999108648>で整地鯖の記念日実績を通知します。"@),
        (941684228624633896u64, "お遊びロールです。破産したら付けてみましょう。"@),
        (959260056539496469u64, "整地鯖民へのお知らせ用です。"@),
    ]
}

/// Whether members may take and drop the role themselves.
pub open spec fn is_assignable(role: u64) -> bool {
    role == 876675066329432114u64 || role == 941684228624633896u64 || role == 959260056539496469u64
}

/// Builds a string from a literal.
fn text_of(t: &str) -> (s: String)
    ensures
        s@ == t@,
{
    let mut s = String::new();
    push_str(&mut s, t);
    s
}

/// The roles members may take and drop themselves, with what each is for.
pub fn assignable_roles() -> (r: Vec<(u64, String)>)
    ensures
        r@.len() == 3,
        forall|k: int| 0 <= k < 3 ==> (#[trigger] r@[k]).0 == assignable_roles_spec()[k].0 && r@[k].1@
            == assignable_roles_spec()[k].1,
{
    let mut r: Vec<(u64, String)> = Vec::new();
    r.push((876675066329432114u64, text_of("<#820939592999108648>で整地鯖の記念日実績を通知します。")));
    r.push((941684228624633896u64, text_of("お遊びロールです。破産したら付けてみましょう。")));
    r.push((959260056539496469u64, text_of("整地鯖民へのお知らせ用です。")));
    r
}

/// What to do about a request to take or drop a role: refuse with a reply,
/// or change the member's roles and then reply.
pub enum RoleDecision {
    Refuse(String),
    Apply(String),
}

/// The view of a decision: whether the roles change, and the reply.
pub open spec fn decision_view(d: RoleDecision) -> (bool, Seq<char>) {
    match d {
        RoleDecision::Refuse(r) => (false, r@),
        RoleDecision::Apply(r) => (true, r@),
    }
}

/// The answer to a member asking for role `role`, called `name`: refused
/// for a role members may not take, or one the member has already; else
/// given.
pub open spec fn take_spec(role: u64, name: Seq<char>, roles: Seq<u64>) -> (bool, Seq<char>) {
    if !is_assignable(role) {
        (false, "そのロールの操作はできません"@)
    } else if roles.contains(role) {
        (false, "既に付与されています"@)
    } else {
        (true, name + "を付与しました"@)
    }
}

/// The answer to a member dropping role `role`, called `name`: refused for
/// a role members may not drop, or one the member does not have; else removed.
pub open spec fn drop_spec(role: u64, name: Seq<char>, roles: Seq<u64>) -> (bool, Seq<char>) {
    if !is_assignable(role) {
        (false, "そのロールの操作はできません"@)
    } else if !roles.contains(role) {
        (false, "そのロールは付与されていません"@)
    } else {
        (true, name + "を削除しました"@)
    }
}

/// Whether `roles` holds `role`.
fn has_role(roles: &Vec<u64>, role: u64) -> (b: bool)
    ensures
        b == roles@.contains(role),
{
    let mut i: usize = 0;
    while i < roles.len()
        invariant
            i <= roles@.len(),
            forall|k: int| 0 <= k < i ==> roles@[k] != role,
        decreases roles@.len() - i,
    {
        if roles[i] == role {
            assert(roles@[i as int] == role);
            return true;
        }
        i += 1;
    }
    false
}

/// Decides a member's request to take the role `role`, called `name`, given
/// the member's current roles.
pub fn take_role(role: u64, name: &str, roles: &Vec<u64>) -> (d: RoleDecision)
    ensures
        decision_view(d) == take_spec(role, name@, roles@),
{
    if !(role == 876675066329432114u64 || role == 941684228624633896u64 || role == 959260056539496469u64) {
        return RoleDecision::Refuse(text_of("そのロールの操作はできません"));
    }
    if has_role(roles, role) {
        return RoleDecision::Refuse(text_of("既に付与されています"));
    }
    let mut reply = text_of(name);
    push_str(&mut reply, "を付与しました");
    RoleDecision::Apply(reply)
}

/// Decides a member's request to drop the role `role`, called `name`, given
/// the member's current roles.
pub fn drop_role(role: u64, name: &str, roles: &Vec<u64>) -> (d: RoleDecision)
    ensures
        decision_view(d) == drop_spec(role, name@, roles@),
{
    if !(role == 876675066329432114u64 || role == 941684228624633896u64 || role == 959260056539496469u64) {
        return RoleDecision::Refuse(text_of("そのロールの操作はできません"));
    }
    if !has_role(roles, role) {
        return RoleDecision::Refuse(text_of("そのロールは付与されていません"));
    }
    let mut reply = text_of(name);
    push_str(&mut reply, "を削除しました");
    RoleDecision::Apply(reply)
}

/// A role is given only when the member may take it and does not have it,
/// and removed only when the member may drop it and has it: taking a role
/// and dropping it never both change the same member's roles.
pub proof fn lemma_take_and_drop_exclusive(role: u64, name: Seq<char>, roles: Seq<u64>)
    ensures
        take_spec(role, name, roles).0 ==> is_assignable(role) && !roles.contains(role),
        drop_spec(role, name, roles).0 ==> is_assignable(role) && roles.contains(role),
        !(take_spec(role, name, roles).0 && drop_spec(role, name, roles).0),
{
}

/// Every role that `role list` shows can be taken by a member who does
/// not hold it, and dropped by a member who does; asking twice is refused.
pub proof fn lemma_listed_roles_can_be_taken_and_dropped(k: int, name: Seq<char>, roles: Seq<u64>)
    requires
        0 <= k < assignable_roles_spec().len(),
    ensures
        !roles.contains(assignable_roles_spec()[k].0) ==> take_spec(assignable_roles_spec()[k].0, name, roles)
            == (true, name + "を付与しました"@),
        roles.contains(assignable_roles_spec()[k].0) ==> take_spec(assignable_roles_spec()[k].0, name, roles)
            == (false, "既に付与されています"@),
        roles.contains(assignable_roles_spec()[k].0) ==> drop_spec(assignable_roles_spec()[k].0, name, roles)
            == (true, name + "を削除しました"@),
        !roles.contains(assignable_roles_spec()[k].0) ==> drop_spec(assignable_roles_spec()[k].0, name, roles)
            == (false, "そのロールは付与されていません"@),
{
}

/// A role that `role list` does not show can be neither taken nor dropped.
pub proof fn lemma_unlisted_roles_refused(role: u64, name: Seq<char>, roles: Seq<u64>)
    requires
        forall|k: int| 0 <= k < assignable_roles_spec().len() ==> #[trigger] assignable_roles_spec()[k].0 != role,
    ensures
        take_spec(role, name, roles) == (false, "そのロールの操作はできません"@),
        drop_spec(role, name, roles) == (false, "そのロールの操作はできません"@),
{
    assert(assignable_roles_spec()[0].0 != role);
    assert(assignable_roles_spec()[1].0 != role);
    assert(assignable_roles_spec()[2].0 != role);
}

} // verus!
