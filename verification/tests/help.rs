use sumire_bot::command_list::{CommandGroup, CommandInfo, CommandList, CommandSearchResult};
use sumire_bot::help::{detail, help_reply, join_strings, list};

fn s(t: &str) -> String {
    t.to_string()
}

fn command(names: &[&str], desc: &str, usage: Option<&str>, examples: &[&str], subs: Vec<usize>) -> CommandInfo {
    CommandInfo {
        names: names.iter().map(|n| s(n)).collect(),
        desc: Some(s(desc)),
        usage: usage.map(s),
        examples: examples.iter().map(|e| s(e)).collect(),
        sub_commands: subs,
    }
}

fn catalog() -> Vec<CommandInfo> {
    vec![
        command(&["help"], "コマンドの詳細を表示します。", Some("[コマンド名]"), &["coin", "coin random"], vec![]),
        command(&["coin", "cn", "point", "pt"], "コインに関するコマンドです。", None, &[], vec![2, 3]),
        command(&["ranking"], "所持コインランキングを表示します。", Some("<ページ>"), &[], vec![]),
        command(&["transfer"], "持っているコインを他人に譲渡します。", Some("<対象> <量>"), &["かえるさん 100"], vec![]),
    ]
}

fn registered() -> CommandList {
    let mut l = CommandList::new(catalog());
    l.add_group(&CommandGroup { owners_only: false, commands: vec![0] });
    l.add_group(&CommandGroup { owners_only: false, commands: vec![1] });
    l
}

fn q(words: &[&str]) -> Vec<String> {
    words.iter().map(|w| s(w)).collect()
}

#[test]
fn groups_register_roots_commands_and_parents() {
    let l = registered();
    assert_eq!(l.roots(), &[0, 1]);
    assert_eq!(l.parent(0), Some(None));
    assert_eq!(l.parent(3), Some(Some(1)));
    assert_eq!(l.parent(2), Some(Some(1)));
    assert_eq!(l.search_command(&s("ranking")), vec![2]);
    assert_eq!(l.search_command(&s("pt")), vec![1]);
    assert_eq!(l.search_command(&s("nothing")), Vec::<usize>::new());
}

#[test]
fn roots_of_one_group_are_registered_last_first() {
    let mut l = CommandList::new(catalog());
    l.add_group(&CommandGroup { owners_only: false, commands: vec![0, 1] });
    assert_eq!(l.roots(), &[1, 0]);
    assert_eq!(l.search_command(&s("help")), vec![0]);
}

#[test]
fn unregistered_command_has_no_parent() {
    let l = CommandList::new(catalog());
    assert_eq!(l.parent(3), None);
}

#[test]
fn search_follows_the_path() {
    let l = registered();
    assert!(matches!(l.search_from_root(&q(&["coin", "transfer"])), CommandSearchResult::Fond(3)));
    assert!(matches!(l.search_from_root(&q(&["cn"])), CommandSearchResult::Fond(1)));
    match l.search_from_root(&q(&["cn", "rank"])) {
        CommandSearchResult::SubCommandNotFound(1, word) => assert_eq!(word, "rank"),
        _ => panic!("expected a missing subcommand"),
    }
    assert!(matches!(l.search_from_root(&q(&["help", "x"])), CommandSearchResult::NotParentCommand(0)));
    match l.search_from_root(&q(&["nope"])) {
        CommandSearchResult::RootCommandNotFound(word) => assert_eq!(word, "nope"),
        _ => panic!("expected a missing root"),
    }
}

#[test]
fn full_name_runs_from_the_root() {
    let l = registered();
    assert_eq!(l.full_name(3), vec![s("coin"), s("transfer")]);
    assert_eq!(l.full_name(1), vec![s("coin")]);
}

#[test]
fn join_puts_separators_between() {
    assert_eq!(join_strings(&q(&["a", "b", "c"]), " "), "a b c");
    assert_eq!(join_strings(&q(&[]), ", "), "");
    assert_eq!(join_strings(&q(&["x"]), ", "), "x");
}

fn fields(e: &sumire_bot::help::EmbedContent) -> Vec<(String, String)> {
    e.fields.iter().map(|f| (f.name.clone(), f.value.clone())).collect()
}

#[test]
fn detail_of_a_subcommand() {
    let l = registered();
    let e = detail(3, &l);
    assert_eq!(e.title, Some(s("coin transfer")));
    assert_eq!(e.description, Some(s("持っているコインを他人に譲渡します。")));
    assert_eq!(
        fields(&e),
        vec![
            (s("使い方"), s("coin transfer <対象> <量>")),
            (s("例"), s("coin transfer かえるさん 100")),
        ]
    );
}

#[test]
fn detail_of_a_parent_command() {
    let l = registered();
    let e = detail(1, &l);
    assert_eq!(e.title, Some(s("coin")));
    assert_eq!(
        fields(&e),
        vec![(s("エイリアス"), s("cn point pt")), (s("サブコマンド"), s("ranking transfer"))]
    );
}

#[test]
fn detail_lists_examples_on_lines() {
    let l = registered();
    let e = detail(0, &l);
    assert_eq!(
        fields(&e),
        vec![(s("使い方"), s("help [コマンド名]")), (s("例"), s("help coin\nhelp coin random"))]
    );
}

#[test]
fn list_shows_names_and_descriptions() {
    let l = registered();
    let f = list(&l, &[2, 3]);
    assert_eq!(f.len(), 2);
    assert_eq!(f[0].name, "ranking");
    assert_eq!(f[1].value, "持っているコインを他人に譲渡します。");
}

#[test]
fn help_without_words_lists_the_roots() {
    let l = registered();
    let r = help_reply(&l, &q(&[]));
    assert_eq!(r.content, None);
    assert_eq!(r.embed.title, Some(s("コマンドの一覧")));
    assert_eq!(fields(&r.embed), vec![(s("help"), s("コマンドの詳細を表示します。")), (s("coin"), s("コインに関するコマンドです。"))]);
}

#[test]
fn help_for_unknown_words() {
    let l = registered();
    let r = help_reply(&l, &q(&["nope"]));
    assert_eq!(r.content, Some(s("nopeというコマンドはありません。以下がコマンドの一覧です。")));
    assert_eq!(r.embed.title, None);
    assert_eq!(fields(&r.embed).len(), 2);

    let r = help_reply(&l, &q(&["coin", "nope"]));
    assert_eq!(
        r.content,
        Some(s("coinコマンドにnopeというサブコマンドはありません。\ncoinコマンドのサブコマンドの一覧を表示しています。"))
    );
    assert_eq!(fields(&r.embed)[0].0, "ranking");

    let r = help_reply(&l, &q(&["help", "x"]));
    assert_eq!(
        r.content,
        Some(s("helpコマンドにサブコマンドはありません。\nhelpコマンドの詳細を表示しています。"))
    );
    assert_eq!(r.embed.title, Some(s("help")));
}

#[test]
fn help_for_a_command() {
    let l = registered();
    let r = help_reply(&l, &q(&["pt", "ranking"]));
    assert_eq!(r.content, None);
    assert_eq!(r.embed.title, Some(s("coin ranking")));
}

#[test]
fn help_ignores_unregistered_commands() {
    let mut cat = catalog();
    cat.push(CommandInfo { names: vec![s("hidden")], desc: None, usage: None, examples: vec![], sub_commands: vec![] });
    let mut l = CommandList::new(cat);
    l.add_group(&CommandGroup { owners_only: false, commands: vec![1] });
    let r = help_reply(&l, &q(&["hidden"]));
    assert_eq!(r.content, Some(s("hiddenというコマンドはありません。以下がコマンドの一覧です。")));
    assert_eq!(fields(&r.embed), vec![(s("coin"), s("コインに関するコマンドです。"))]);
}
