use vstd::prelude::*;

use crate::command_list::{
    documented, lemma_registered_documented, lemma_search_registered, lemma_strings_view_push, name_chain, opt_view, search_outcome, strings_view, CommandList,
    CommandListView, CommandSearchResult, CommandView, SearchOutcome,
};
use crate::text::{chars_of, push_str};

verus! {

/// The parts joined with `sep` between neighbours.
pub open spec fn join(parts: Seq<Seq<char>>, sep: Seq<char>) -> Seq<char>
    decreases parts.len(),
{
    if parts.len() == 0 {
        seq![]
    } else if parts.len() == 1 {
        parts[0]
    } else {
        join(parts.drop_last(), sep) + sep + parts.last()
    }
}

/// Joins the strings with `sep` between neighbours.
pub fn join_strings(parts: &Vec<String>, sep: &str) -> (out: String)
    ensures
        out@ == join(strings_view(parts@), sep@),
{
    let mut out = String::new();
    let mut i: usize = 0;
    while i < parts.len()
        invariant
            i <= parts@.len(),
            out@ == join(strings_view(parts@.take(i as int)), sep@),
        decreases parts@.len() - i,
    {
        let ghost next = strings_view(parts@.take(i + 1));
        assert(next.drop_last() =~= strings_view(parts@.take(i as int)));
        assert(next.last() == parts@[i as int]@);
        if i > 0 {
            push_str(&mut out, sep);
        }
        push_str(&mut out, parts[i].as_str());
        if i == 0 {
            assert(out@ =~= join(next, sep@));
        }
        i += 1;
    }
    assert(parts@.take(i as int) =~= parts@);
    out
}

/// One field of an embedded message: a heading and its text.
pub struct EmbedField {
    pub name: String,
    pub value: String,
}

/// The contents of an embedded message: an optional title and description,
/// then the fields in order.
pub struct EmbedContent {
    pub title: Option<String>,
    pub description: Option<String>,
    pub fields: Vec<EmbedField>,
}

/// What an embedded message shows.
pub struct EmbedView {
    pub title: Option<Seq<char>>,
    pub description: Option<Seq<char>>,
    pub fields: Seq<(Seq<char>, Seq<char>)>,
}

/// The heading and text of each field.
pub open spec fn fields_view(f: Seq<EmbedField>) -> Seq<(Seq<char>, Seq<char>)> {
    f.map_values(|e: EmbedField| (e.name@, e.value@))
}

impl View for EmbedContent {
    type V = EmbedView;

    open spec fn view(&self) -> EmbedView {
        EmbedView {
            title: opt_view(self.title),
            description: opt_view(self.description),
            fields: fields_view(self.fields@),
        }
    }
}

/// One field per command: its main name over its description.
pub open spec fn list_spec(cat: Seq<CommandView>, commands: Seq<usize>) -> Seq<(Seq<char>, Seq<char>)> {
    commands.map_values(|c: usize| (cat[c as int].names[0], cat[c as int].desc->0))
}

/// The commands are in the catalog and have a description.
pub open spec fn listable(cat: Seq<CommandView>, commands: Seq<usize>) -> bool {
    forall|k: int| 0 <= k < commands.len() ==> #[trigger] commands[k] < cat.len() && cat[commands[k] as int].desc is Some
}

/// The fields listing the given commands: main name and description.
pub fn list(known: &CommandList, commands: &[usize]) -> (fields: Vec<EmbedField>)
    requires
        known@.wf(),
        listable(known@.catalog, commands@),
    ensures
        fields_view(fields@) == list_spec(known@.catalog, commands@),
{
    let mut fields: Vec<EmbedField> = Vec::new();
    let mut i: usize = 0;
    while i < commands.len()
        invariant
            known@.wf(),
            listable(known@.catalog, commands@),
            i <= commands@.len(),
            fields@.len() == i,
            fields_view(fields@) == list_spec(known@.catalog, commands@.take(i as int)),
        decreases commands@.len() - i,
    {
        let c = commands[i];
        let (name, desc) = known.name_and_desc(c);
        let ghost before = fields@;
        fields.push(EmbedField { name, value: desc });
        assert(fields@.len() == i + 1);
        assert forall|k: int| 0 <= k < i + 1 implies fields_view(fields@)[k] == list_spec(
            known@.catalog,
            commands@.take(i + 1),
        )[k] by {
            assert(commands@.take(i + 1)[k] == commands@[k]);
            if k < i {
                assert(fields@[k] == before[k]);
                assert(fields_view(before)[k] == list_spec(known@.catalog, commands@.take(i as int))[k]);
                assert(commands@.take(i as int)[k] == commands@[k]);
            } else {
                assert(commands@[k] == c);
            }
        }
        assert(fields_view(fields@) =~= list_spec(known@.catalog, commands@.take(i + 1)));
        i += 1;
    }
    assert(commands@.take(i as int) =~= commands@);
    fields
}

/// The full name of a command: its main names from the outermost parent
/// down, separated by spaces.
pub open spec fn full_name_text(l: CommandListView, c: usize) -> Seq<char> {
    join(name_chain(l, c), " "@)
}

/// The aliases field, shown when the command has more than one name.
pub open spec fn alias_field(cmd: CommandView) -> Seq<(Seq<char>, Seq<char>)> {
    if cmd.names.len() >= 2 {
        seq![("エイリアス"@, join(cmd.names.skip(1), " "@))]
    } else {
        seq![]
    }
}

/// The subcommands field, shown when the command has subcommands.
pub open spec fn sub_field(cat: Seq<CommandView>, cmd: CommandView) -> Seq<(Seq<char>, Seq<char>)> {
    if cmd.subs.len() > 0 {
        seq![("サブコマンド"@, join(cmd.subs.map_values(|s: usize| cat[s as int].names[0]), " "@))]
    } else {
        seq![]
    }
}

/// The usage field, shown when the command has a nonempty usage line.
pub open spec fn usage_field(cmd: CommandView, full: Seq<char>) -> Seq<(Seq<char>, Seq<char>)> {
    match cmd.usage {
        Some(u) => if u.len() > 0 {
            seq![("使い方"@, full + " "@ + u)]
        } else {
            seq![]
        },
        None => seq![],
    }
}

/// The examples field, one line per example, shown when there are examples.
pub open spec fn example_field(cmd: CommandView, full: Seq<char>) -> Seq<(Seq<char>, Seq<char>)> {
    if cmd.examples.len() > 0 {
        seq![("例"@, join(cmd.examples.map_values(|e: Seq<char>| full + " "@ + e), "\n"@))]
    } else {
        seq![]
    }
}

/// The embed that describes a command in detail.
pub open spec fn detail_spec(l: CommandListView, c: usize) -> EmbedView {
    let cmd = l.catalog[c as int];
    let full = full_name_text(l, c);
    EmbedView {
        title: Some(full),
        description: Some(cmd.desc->0),
        fields: alias_field(cmd) + sub_field(l.catalog, cmd) + usage_field(cmd, full)
            + example_field(cmd, full),
    }
}

/// Appends a field.
fn push_field(fields: &mut Vec<EmbedField>, name: &str, value: String)
    ensures
        fields_view(final(fields)@) == fields_view(old(fields)@).push((name@, value@)),
{
    let mut n = String::new();
    push_str(&mut n, name);
    fields.push(EmbedField { name: n, value });
    assert(fields_view(fields@) =~= fields_view(old(fields)@).push((name@, value@)));
}

/// `full` followed by a space and `tail`.
fn prefixed(full: &String, tail: &String) -> (r: String)
    ensures
        r@ == full@ + " "@ + tail@,
{
    let mut r = full.clone();
    push_str(&mut r, " ");
    push_str(&mut r, tail.as_str());
    r
}

/// The embed that describes a command in detail: its full name as title,
/// its description, then its aliases, subcommands, usage and examples where
/// it has them.
pub fn detail(command: usize, known: &CommandList) -> (e: EmbedContent)
    requires
        known@.wf(),
        command < known@.catalog.len(),
        known@.catalog[command as int].desc is Some,
    ensures
        e@ == detail_spec(known@, command),
{
    let ghost cat = known@.catalog;
    let ghost cmd = cat[command as int];
    let names = known.full_name(command);
    let full = join_strings(&names, " ");
    let (_, desc) = known.name_and_desc(command);
    let mut fields: Vec<EmbedField> = Vec::new();
    let aliases = known.aliases(command);
    if aliases.len() > 0 {
        push_field(&mut fields, "エイリアス", join_strings(&aliases, " "));
    }
    assert(fields_view(fields@) =~= alias_field(cmd));
    let subs = known.sub_names(command);
    if subs.len() > 0 {
        push_field(&mut fields, "サブコマンド", join_strings(&subs, " "));
    }
    assert(fields_view(fields@) =~= alias_field(cmd) + sub_field(cat, cmd));
    let (usage, examples) = known.usage_and_examples(command);
    let ghost before_usage = fields_view(fields@);
    match &usage {
        Some(u) => {
            if chars_of(u.as_str()).len() > 0 {
                push_field(&mut fields, "使い方", prefixed(&full, u));
            }
        },
        None => {},
    }
    assert(fields_view(fields@) =~= before_usage + usage_field(cmd, full@));
    if examples.len() > 0 {
        let mut lines: Vec<String> = Vec::new();
        let mut i: usize = 0;
        while i < examples.len()
            invariant
                i <= examples@.len(),
                strings_view(lines@) == strings_view(examples@).take(i as int).map_values(
                    |e: Seq<char>| full@ + " "@ + e,
                ),
            decreases examples@.len() - i,
        {
            let ghost before = lines@;
            let line = prefixed(&full, &examples[i]);
            lines.push(line);
            proof {
                lemma_strings_view_push(before, line);
            }
            assert(strings_view(examples@)[i as int] == examples@[i as int]@);
            assert(strings_view(lines@) =~= strings_view(examples@).take(i + 1).map_values(
                |e: Seq<char>| full@ + " "@ + e,
            ));
            i += 1;
        }
        assert(strings_view(examples@).take(i as int) =~= strings_view(examples@));
        let ghost before = fields_view(fields@);
        push_field(&mut fields, "例", join_strings(&lines, "\n"));
        assert(fields_view(fields@) =~= before + example_field(cmd, full@));
    } else {
        assert(example_field(cmd, full@) =~= Seq::<(Seq<char>, Seq<char>)>::empty());
        assert(fields_view(fields@) =~= fields_view(fields@) + example_field(cmd, full@));
    }
    EmbedContent { title: Some(full), description: Some(desc), fields }
}

/// The reply of the help command: optional text above an embed.
pub struct HelpReply {
    pub content: Option<String>,
    pub embed: EmbedContent,
}

/// The embed listing the given commands, with an optional title.
pub open spec fn list_embed(title: Option<Seq<char>>, cat: Seq<CommandView>, commands: Seq<usize>) -> EmbedView {
    EmbedView { title, description: None, fields: list_spec(cat, commands) }
}

/// What the help command answers to the words `queries` after it: the list
/// of root commands when there are none; otherwise the details of the command
/// they name, or, when the lookup stops early, a notice with the details of
/// the last command found, the root commands, or the subcommands of the last
/// command found.
pub open spec fn help_spec(l: CommandListView, queries: Seq<Seq<char>>) -> (Option<Seq<char>>, EmbedView) {
    if queries.len() == 0 {
        (None, list_embed(Some("コマンドの一覧"@), l.catalog, l.roots))
    } else {
        match search_outcome(l, queries) {
            SearchOutcome::Fond(c) => (None, detail_spec(l, c)),
            SearchOutcome::NotParentCommand(c) => (
                Some(full_name_text(l, c) + "コマンドにサブコマンドはありません。\n"@
                    + full_name_text(l, c) + "コマンドの詳細を表示しています。"@),
                detail_spec(l, c),
            ),
            SearchOutcome::RootCommandNotFound(q) => (
                Some(q + "というコマンドはありません。以下がコマンドの一覧です。"@),
                list_embed(None, l.catalog, l.roots),
            ),
            SearchOutcome::SubCommandNotFound(c, q) => (
                Some(full_name_text(l, c) + "コマンドに"@ + q
                    + "というサブコマンドはありません。\n"@ + full_name_text(l, c)
                    + "コマンドのサブコマンドの一覧を表示しています。"@),
                list_embed(None, l.catalog, l.catalog[c as int].subs),
            ),
        }
    }
}

/// A listing embed.
fn list_content(title: Option<String>, known: &CommandList, commands: &[usize]) -> (e: EmbedContent)
    requires
        known@.wf(),
        listable(known@.catalog, commands@),
    ensures
        e@ == list_embed(opt_view(title), known@.catalog, commands@),
{
    EmbedContent { title, description: None, fields: list(known, commands) }
}

/// Answers the help command for the words `queries` given after it.
pub fn help_reply(known: &CommandList, queries: &Vec<String>) -> (r: HelpReply)
    requires
        known@.wf(),
    ensures
        (opt_view(r.content), r.embed@) == help_spec(known@, strings_view(queries@)),
{
    let ghost l = known@;
    assert(listable(l.catalog, l.roots)) by {
        assert forall|k: int| 0 <= k < l.roots.len() implies #[trigger] l.roots[k] < l.catalog.len()
            && l.catalog[l.roots[k] as int].desc is Some by {
            lemma_registered_documented(l, l.roots[k]);
        }
    }
    if queries.len() > 0 {
        proof {
            lemma_search_registered(l, strings_view(queries@));
        }
    }
    if queries.len() == 0 {
        let mut title = String::new();
        push_str(&mut title, "コマンドの一覧");
        return HelpReply { content: None, embed: list_content(Some(title), known, known.roots()) };
    }
    match known.search_from_root(queries) {
        CommandSearchResult::Fond(c) => {
            proof {
                lemma_registered_documented(l, c);
            }
            HelpReply { content: None, embed: detail(c, known) }
        },
        CommandSearchResult::NotParentCommand(c) => {
            proof {
                lemma_registered_documented(l, c);
            }
            let full = join_strings(&known.full_name(c), " ");
            let mut content = full.clone();
            push_str(&mut content, "コマンドにサブコマンドはありません。\n");
            push_str(&mut content, full.as_str());
            push_str(&mut content, "コマンドの詳細を表示しています。");
            HelpReply { content: Some(content), embed: detail(c, known) }
        },
        CommandSearchResult::RootCommandNotFound(q) => {
            let mut content = q.clone();
            push_str(&mut content, "というコマンドはありません。以下がコマンドの一覧です。");
            HelpReply { content: Some(content), embed: list_content(None, known, known.roots()) }
        },
        CommandSearchResult::SubCommandNotFound(c, q) => {
            let full = join_strings(&known.full_name(c), " ");
            let mut content = full.clone();
            push_str(&mut content, "コマンドに");
            push_str(&mut content, q.as_str());
            push_str(&mut content, "というサブコマンドはありません。\n");
            push_str(&mut content, full.as_str());
            push_str(&mut content, "コマンドのサブコマンドの一覧を表示しています。");
            let subs = known.sub_list(c);
            assert(listable(l.catalog, subs@)) by {
                lemma_registered_documented(l, c);
                assert forall|k: int| 0 <= k < subs@.len() implies #[trigger] subs@[k] < l.catalog.len()
                    && l.catalog[subs@[k] as int].desc is Some by {
                    assert(subs@[k] == l.catalog[c as int].subs[k]);
                    lemma_registered_documented(l, subs@[k]);
                }
            }
            HelpReply { content: Some(content), embed: list_content(None, known, subs.as_slice()) }
        },
    }
}

/// The titles of the fields of a command's detail embed are all distinct
/// from the usage title except the usage field's own.
proof fn lemma_field_titles(l: CommandListView, c: usize)
    requires
        c < l.catalog.len(),
    ensures
        forall|k: int| 0 <= k < alias_field(l.catalog[c as int]).len() ==> (#[trigger] alias_field(l.catalog[c as int])[k]).0 != "使い方"@,
        forall|k: int| 0 <= k < sub_field(l.catalog, l.catalog[c as int]).len() ==> (#[trigger] sub_field(l.catalog, l.catalog[c as int])[k]).0 != "使い方"@,
        forall|k: int| 0 <= k < example_field(l.catalog[c as int], full_name_text(l, c)).len() ==> (#[trigger] example_field(l.catalog[c as int], full_name_text(l, c))[k]).0 != "使い方"@,
{
    reveal_strlit("使い方");
    reveal_strlit("エイリアス");
    reveal_strlit("サブコマンド");
    reveal_strlit("例");
    assert("使い方"@.len() == 3);
    assert("エイリアス"@.len() == 5);
    assert("サブコマンド"@.len() == 6);
    assert("例"@[0] != "使い方"@[0]);
}

/// A command's detail embed has a usage field exactly when the command has
/// a nonempty usage line, and that field reads the full name, a space and
/// the usage line.
pub proof fn lemma_usage_field_iff_usage_given(l: CommandListView, c: usize)
    requires
        c < l.catalog.len(),
    ensures
        (exists|k: int| 0 <= k < detail_spec(l, c).fields.len() && (#[trigger] detail_spec(l, c).fields[k]).0 == "使い方"@)
            <==> (l.catalog[c as int].usage matches Some(u) && u.len() > 0),
        forall|k: int| 0 <= k < detail_spec(l, c).fields.len() && (#[trigger] detail_spec(l, c).fields[k]).0 == "使い方"@
            ==> detail_spec(l, c).fields[k].1 == full_name_text(l, c) + " "@ + l.catalog[c as int].usage->0,
{
    let cmd = l.catalog[c as int];
    let full = full_name_text(l, c);
    let a = alias_field(cmd);
    let b = sub_field(l.catalog, cmd);
    let u = usage_field(cmd, full);
    let x = example_field(cmd, full);
    let f = detail_spec(l, c).fields;
    assert(f == a + b + u + x);
    lemma_field_titles(l, c);
    assert forall|k: int| 0 <= k < f.len() && (#[trigger] f[k]).0 == "使い方"@ implies
        a.len() + b.len() <= k < a.len() + b.len() + u.len() && f[k] == u[k - a.len() - b.len()] by {
        if k < a.len() {
            assert(f[k] == a[k]);
        } else if k < a.len() + b.len() {
            assert(f[k] == b[k - a.len()]);
        } else if k < a.len() + b.len() + u.len() {
            assert(f[k] == u[k - a.len() - b.len()]);
        } else {
            assert(f[k] == x[k - a.len() - b.len() - u.len()]);
        }
    }
    if cmd.usage matches Some(t) && t.len() > 0 {
        let k = a.len() + b.len();
        assert(f[k as int] == u[0]);
        assert(f[k as int].0 == "使い方"@);
    }
}

} // verus!
