use vstd::prelude::*;

verus! {

/// One command of the bot as its framework describes it: its names (the
/// first is the main one, the rest are aliases), description, usage line,
/// example arguments, and subcommands given by their places in the catalog.
pub struct CommandInfo {
    pub names: Vec<String>,
    pub desc: Option<String>,
    pub usage: Option<String>,
    pub examples: Vec<String>,
    pub sub_commands: Vec<usize>,
}

/// A group of commands registered together: whether only owners may use
/// them, and its top-level commands by their places in the catalog.
pub struct CommandGroup {
    pub owners_only: bool,
    pub commands: Vec<usize>,
}

/// What a command holds, as plain sequences.
pub struct CommandView {
    pub names: Seq<Seq<char>>,
    pub desc: Option<Seq<char>>,
    pub usage: Option<Seq<char>>,
    pub examples: Seq<Seq<char>>,
    pub subs: Seq<usize>,
}

/// The view of an optional string.
pub open spec fn opt_view(o: Option<String>) -> Option<Seq<char>> {
    match o {
        Some(s) => Some(s@),
        None => None,
    }
}

/// The views of a list of strings.
pub open spec fn strings_view(v: Seq<String>) -> Seq<Seq<char>> {
    v.map_values(|s: String| s@)
}

impl View for CommandInfo {
    type V = CommandView;

    open spec fn view(&self) -> CommandView {
        CommandView {
            names: strings_view(self.names@),
            desc: opt_view(self.desc),
            usage: opt_view(self.usage),
            examples: strings_view(self.examples@),
            subs: self.sub_commands@,
        }
    }
}

/// Pushing a string pushes its view.
pub proof fn lemma_strings_view_push(v: Seq<String>, s: String)
    ensures
        strings_view(v.push(s)) == strings_view(v).push(s@),
{
    assert(strings_view(v.push(s)) =~= strings_view(v).push(s@));
}

/// The views of a catalog of commands.
pub open spec fn catalog_view(v: Seq<CommandInfo>) -> Seq<CommandView> {
    v.map_values(|c: CommandInfo| c@)
}

/// Every command has a name, and every subcommand comes later in the
/// catalog than its parent command (so no command contains itself).
pub open spec fn catalog_wf(cat: Seq<CommandView>) -> bool {
    &&& forall|x: int| 0 <= x < cat.len() ==> #[trigger] cat[x].names.len() >= 1
    &&& forall|x: int, j: int|
        0 <= x < cat.len() && 0 <= j < cat[x].subs.len() ==> x < #[trigger] cat[x].subs[j]
            < cat.len()
}

/// The command at `x` and then, subcommand by subcommand in order, everything
/// below it: the order in which a group's commands are registered.
pub open spec fn preorder(cat: Seq<CommandView>, x: int) -> Seq<usize>
    decreases cat.len() - x, 1int, 0int,
{
    if 0 <= x < cat.len() {
        seq![x as usize] + preorder_from(cat, x, 0)
    } else {
        seq![]
    }
}

/// Everything below the subcommands of `x` from the `i`-th one on.
pub open spec fn preorder_from(cat: Seq<CommandView>, x: int, i: int) -> Seq<usize>
    decreases cat.len() - x, 0int, cat[x].subs.len() - i,
{
    if 0 <= x < cat.len() && 0 <= i < cat[x].subs.len() && x < cat[x].subs[i] < cat.len() {
        preorder(cat, cat[x].subs[i] as int) + preorder_from(cat, x, i + 1)
    } else {
        seq![]
    }
}

/// The (subcommand, parent) pairs recorded when `x` is registered: those of
/// `x` itself, then those of each subcommand in order.
pub open spec fn parent_pairs(cat: Seq<CommandView>, x: int) -> Seq<(usize, Option<usize>)>
    decreases cat.len() - x, 1int, 0int,
{
    if 0 <= x < cat.len() {
        cat[x].subs.map_values(|s: usize| (s, Some(x as usize))) + parent_pairs_from(cat, x, 0)
    } else {
        seq![]
    }
}

/// The pairs recorded below the subcommands of `x` from the `i`-th one on.
pub open spec fn parent_pairs_from(cat: Seq<CommandView>, x: int, i: int) -> Seq<(usize, Option<usize>)>
    decreases cat.len() - x, 0int, cat[x].subs.len() - i,
{
    if 0 <= x < cat.len() && 0 <= i < cat[x].subs.len() && x < cat[x].subs[i] < cat.len() {
        parent_pairs(cat, cat[x].subs[i] as int) + parent_pairs_from(cat, x, i + 1)
    } else {
        seq![]
    }
}

/// The commands registered for a group, its last top-level command first.
pub open spec fn group_preorder(cat: Seq<CommandView>, g: Seq<usize>) -> Seq<usize>
    decreases g.len(),
{
    if g.len() == 0 {
        seq![]
    } else {
        preorder(cat, g.last() as int) + group_preorder(cat, g.drop_last())
    }
}

/// The parent pairs recorded below a group's commands, in registration order.
pub open spec fn group_parent_pairs(cat: Seq<CommandView>, g: Seq<usize>) -> Seq<(usize, Option<usize>)>
    decreases g.len(),
{
    if g.len() == 0 {
        seq![]
    } else {
        parent_pairs(cat, g.last() as int) + group_parent_pairs(cat, g.drop_last())
    }
}

/// A command has a description, and a usage line unless it has subcommands.
pub open spec fn documented(c: CommandView) -> bool {
    &&& c.desc is Some
    &&& c.subs.len() == 0 ==> c.usage is Some
}

/// Every listed command is documented.
pub open spec fn all_documented(cat: Seq<CommandView>, s: Seq<usize>) -> bool {
    forall|k: int| 0 <= k < s.len() ==> 0 <= #[trigger] s[k] < cat.len() && documented(cat[s[k] as int])
}

/// The registered commands, with the tree structure needed to search them
/// and to name them.
pub struct CommandList {
    catalog: Vec<CommandInfo>,
    roots: Vec<usize>,
    commands: Vec<usize>,
    parents: Vec<(usize, Option<usize>)>,
}

/// The state of a command list: the catalog, the root commands in search
/// order, every registered command, and the (command, parent) pairs.
pub struct CommandListView {
    pub catalog: Seq<CommandView>,
    pub roots: Seq<usize>,
    pub commands: Seq<usize>,
    pub parents: Seq<(usize, Option<usize>)>,
}

impl View for CommandList {
    type V = CommandListView;

    closed spec fn view(&self) -> CommandListView {
        CommandListView {
            catalog: catalog_view(self.catalog@),
            roots: self.roots@,
            commands: self.commands@,
            parents: self.parents@,
        }
    }
}

impl CommandListView {
    /// The catalog is well formed, every recorded command is in it, and every
    /// parent comes before its subcommand in the catalog.
    pub open spec fn indices_wf(self) -> bool {
        &&& catalog_wf(self.catalog)
        &&& forall|k: int| 0 <= k < self.roots.len() ==> #[trigger] self.roots[k] < self.catalog.len()
        &&& forall|k: int| 0 <= k < self.commands.len() ==> #[trigger] self.commands[k] < self.catalog.len()
        &&& forall|k: int|
            0 <= k < self.parents.len() ==> {
                &&& #[trigger] self.parents[k].0 < self.catalog.len()
                &&& self.parents[k].1 matches Some(p) ==> p < self.parents[k].0
            }
    }

    /// The indices are sound, every registered command is documented, every
    /// root is registered, and the subcommands of a registered command are
    /// registered too.
    pub open spec fn wf(self) -> bool {
        &&& self.indices_wf()
        &&& all_documented(self.catalog, self.commands)
        &&& forall|k: int| 0 <= k < self.roots.len() ==> self.commands.contains(#[trigger] self.roots[k])
        &&& closed_under_subs(self.catalog, self.commands)
    }
}

/// The subcommands of every listed command are listed.
pub open spec fn closed_under_subs(cat: Seq<CommandView>, s: Seq<usize>) -> bool {
    forall|k: int, j: int|
        0 <= k < s.len() && 0 <= j < cat[s[k] as int].subs.len() ==> s.contains(
            #[trigger] cat[s[k] as int].subs[j],
        )
}

/// Joining two lists closed under subcommands gives one.
proof fn lemma_closed_concat(cat: Seq<CommandView>, a: Seq<usize>, b: Seq<usize>)
    requires
        closed_under_subs(cat, a),
        closed_under_subs(cat, b),
    ensures
        closed_under_subs(cat, a + b),
{
    let ab = a + b;
    assert forall|k: int, j: int|
        0 <= k < ab.len() && 0 <= j < cat[ab[k] as int].subs.len() implies ab.contains(
        #[trigger] cat[ab[k] as int].subs[j],
    ) by {
        let v = cat[ab[k] as int].subs[j];
        if k < a.len() {
            assert(ab[k] == a[k]);
            assert(a.contains(cat[a[k] as int].subs[j]));
            let w = choose|w: int| 0 <= w < a.len() && a[w] == v;
            assert(ab[w] == v);
        } else {
            assert(ab[k] == b[k - a.len()]);
            assert(b.contains(cat[b[k - a.len()] as int].subs[j]));
            let w = choose|w: int| 0 <= w < b.len() && b[w] == v;
            assert(ab[w + a.len()] == v);
        }
    }
}

/// Everything below a command, the command included, is closed under
/// subcommands, and starts with the command.
proof fn lemma_preorder_closed(cat: Seq<CommandView>, x: usize)
    requires
        catalog_wf(cat),
        x < cat.len(),
    ensures
        preorder(cat, x as int).len() > 0,
        preorder(cat, x as int)[0] == x,
        closed_under_subs(cat, preorder(cat, x as int)),
    decreases cat.len() - x, 1int, 0int,
{
    lemma_preorder_from_closed(cat, x as int, 0);
    let tail = preorder_from(cat, x as int, 0);
    let p = preorder(cat, x as int);
    assert(p == seq![x] + tail);
    assert forall|k: int, j: int|
        0 <= k < p.len() && 0 <= j < cat[p[k] as int].subs.len() implies p.contains(
        #[trigger] cat[p[k] as int].subs[j],
    ) by {
        let v = cat[p[k] as int].subs[j];
        if k == 0 {
            assert(tail.contains(cat[x as int].subs[j]));
        } else {
            assert(p[k] == tail[k - 1]);
            assert(tail.contains(cat[tail[k - 1] as int].subs[j]));
        }
        let w = choose|w: int| 0 <= w < tail.len() && tail[w] == v;
        assert(p[w + 1] == v);
    }
}

/// Everything below the subcommands of `x` from the `i`-th on is closed under
/// subcommands and holds each of those subcommands.
proof fn lemma_preorder_from_closed(cat: Seq<CommandView>, x: int, i: int)
    requires
        catalog_wf(cat),
        0 <= x < cat.len(),
        0 <= i,
    ensures
        closed_under_subs(cat, preorder_from(cat, x, i)),
        forall|j: int| i <= j < cat[x].subs.len() ==> preorder_from(cat, x, i).contains(
            #[trigger] cat[x].subs[j],
        ),
    decreases cat.len() - x, 0int, cat[x].subs.len() - i,
{
    if i < cat[x].subs.len() {
        let s = cat[x].subs[i];
        assert(x < s < cat.len());
        lemma_preorder_closed(cat, s);
        lemma_preorder_from_closed(cat, x, i + 1);
        let a = preorder(cat, s as int);
        let b = preorder_from(cat, x, i + 1);
        lemma_closed_concat(cat, a, b);
        assert(preorder_from(cat, x, i) == a + b);
        assert forall|j: int| i <= j < cat[x].subs.len() implies (a + b).contains(
            #[trigger] cat[x].subs[j],
        ) by {
            if j == i {
                assert((a + b)[0] == s);
            } else {
                assert(b.contains(cat[x].subs[j]));
                let w = choose|w: int| 0 <= w < b.len() && b[w] == cat[x].subs[j];
                assert((a + b)[w + a.len()] == b[w]);
            }
        }
    } else {
        assert(preorder_from(cat, x, i) =~= Seq::<usize>::empty());
    }
}

/// The commands registered for a group are closed under subcommands and
/// hold each top-level command of the group.
proof fn lemma_group_preorder_closed(cat: Seq<CommandView>, g: Seq<usize>)
    requires
        catalog_wf(cat),
        forall|k: int| 0 <= k < g.len() ==> #[trigger] g[k] < cat.len(),
    ensures
        closed_under_subs(cat, group_preorder(cat, g)),
        forall|k: int| 0 <= k < g.len() ==> group_preorder(cat, g).contains(#[trigger] g[k]),
    decreases g.len(),
{
    if g.len() == 0 {
        assert(group_preorder(cat, g) =~= Seq::<usize>::empty());
    } else {
        let c = g.last();
        let rest = g.drop_last();
        assert(c == g[g.len() - 1]);
        lemma_preorder_closed(cat, c);
        lemma_group_preorder_closed(cat, rest);
        let a = preorder(cat, c as int);
        let b = group_preorder(cat, rest);
        lemma_closed_concat(cat, a, b);
        assert(group_preorder(cat, g) == a + b);
        assert forall|k: int| 0 <= k < g.len() implies (a + b).contains(#[trigger] g[k]) by {
            if k == g.len() - 1 {
                assert((a + b)[0] == c);
            } else {
                assert(rest[k] == g[k]);
                assert(b.contains(rest[k]));
                let w = choose|w: int| 0 <= w < b.len() && b[w] == g[k];
                assert((a + b)[w + a.len()] == b[w]);
            }
        }
    }
}

/// The parts of a concatenation keep every listed command documented.
proof fn lemma_documented_split(cat: Seq<CommandView>, a: Seq<usize>, b: Seq<usize>)
    requires
        all_documented(cat, a + b),
    ensures
        all_documented(cat, a),
        all_documented(cat, b),
{
    assert forall|k: int| 0 <= k < a.len() implies 0 <= #[trigger] a[k] < cat.len() && documented(
        cat[a[k] as int],
    ) by {
        assert((a + b)[k] == a[k]);
    }
    assert forall|k: int| 0 <= k < b.len() implies 0 <= #[trigger] b[k] < cat.len() && documented(
        cat[b[k] as int],
    ) by {
        assert((a + b)[k + a.len()] == b[k]);
    }
}

impl CommandList {
    /// An empty list over the given catalog of commands.
    pub fn new(catalog: Vec<CommandInfo>) -> (list: Self)
        requires
            catalog_wf(catalog_view(catalog@)),
        ensures
            list@.wf(),
            list@.catalog == catalog_view(catalog@),
            list@.roots == Seq::<usize>::empty(),
            list@.commands == Seq::<usize>::empty(),
            list@.parents == Seq::<(usize, Option<usize>)>::empty(),
    {
        CommandList { catalog, roots: Vec::new(), commands: Vec::new(), parents: Vec::new() }
    }

    /// The subcommands of the command at `x`.
    fn sub_count(&self, x: usize) -> (n: usize)
        requires
            x < self@.catalog.len(),
        ensures
            n == self@.catalog[x as int].subs.len(),
    {
        self.catalog[x].sub_commands.len()
    }

    /// The `i`-th subcommand of the command at `x`.
    fn sub_at(&self, x: usize, i: usize) -> (s: usize)
        requires
            x < self@.catalog.len(),
            i < self@.catalog[x as int].subs.len(),
        ensures
            s == self@.catalog[x as int].subs[i as int],
    {
        self.catalog[x].sub_commands[i]
    }

    /// Registers the command at `x` and everything below it.
    fn visit(&mut self, x: usize)
        requires
            old(self)@.indices_wf(),
            x < old(self)@.catalog.len(),
            all_documented(old(self)@.catalog, preorder(old(self)@.catalog, x as int)),
        ensures
            final(self)@.indices_wf(),
            final(self)@.catalog == old(self)@.catalog,
            final(self)@.roots == old(self)@.roots,
            final(self)@.commands == old(self)@.commands + preorder(old(self)@.catalog, x as int),
            final(self)@.parents == old(self)@.parents + parent_pairs(old(self)@.catalog, x as int),
        decreases old(self)@.catalog.len() - x,
    {
        let ghost cat = self@.catalog;
        let ghost start_cmds = self@.commands;
        let ghost start_pairs = self@.parents;
        let ghost subs = cat[x as int].subs;
        self.commands.push(x);
        assert(self@.commands == start_cmds.push(x));
        assert forall|k: int| 0 <= k < self@.commands.len() implies #[trigger] self@.commands[k]
            < self@.catalog.len() by {
            if k < start_cmds.len() {
                assert(self@.commands[k] == start_cmds[k]);
            }
        }
        assert(self@.catalog == cat);
        assert(self@.parents == start_pairs);
        assert(self@.roots == old(self)@.roots);
        assert(catalog_wf(self@.catalog));
        assert(self@.indices_wf());
        let n = self.sub_count(x);
        let mut i: usize = 0;
        while i < n
            invariant
                self@.indices_wf(),
                self@.catalog == cat,
                self@.roots == old(self)@.roots,
                self@.commands == start_cmds.push(x),
                x < cat.len(),
                n == subs.len(),
                subs == cat[x as int].subs,
                i <= n,
                self@.parents == start_pairs + subs.take(i as int).map_values(
                    |s: usize| (s, Some(x)),
                ),
            decreases n - i,
        {
            let s = self.sub_at(x, i);
            assert(x < s < cat.len());
            self.parents.push((s, Some(x)));
            assert(subs.take(i + 1).map_values(|s: usize| (s, Some(x))) =~= subs.take(
                i as int,
            ).map_values(|s: usize| (s, Some(x))).push((s, Some(x))));
            i += 1;
        }
        assert(subs.take(n as int) =~= subs);
        proof {
            lemma_documented_split(cat, seq![x], preorder_from(cat, x as int, 0));
        }
        let ghost own_pairs = subs.map_values(|s: usize| (s, Some(x)));
        let mut i: usize = 0;
        while i < n
            invariant
                self@.indices_wf(),
                self@.catalog == cat,
                self@.roots == old(self)@.roots,
                cat == old(self)@.catalog,
                x < cat.len(),
                n == subs.len(),
                subs == cat[x as int].subs,
                i <= n,
                start_cmds.push(x) + preorder_from(cat, x as int, 0) == self@.commands
                    + preorder_from(cat, x as int, i as int),
                start_pairs + own_pairs + parent_pairs_from(cat, x as int, 0) == self@.parents
                    + parent_pairs_from(cat, x as int, i as int),
                all_documented(cat, preorder_from(cat, x as int, i as int)),
            decreases n - i,
        {
            let s = self.sub_at(x, i);
            assert(x < s < cat.len());
            proof {
                lemma_documented_split(
                    cat,
                    preorder(cat, s as int),
                    preorder_from(cat, x as int, i + 1),
                );
            }
            let ghost before_cmds = self@.commands;
            let ghost before_pairs = self@.parents;
            self.visit(s);
            assert(before_cmds + preorder_from(cat, x as int, i as int) =~= self@.commands
                + preorder_from(cat, x as int, i + 1));
            assert(before_pairs + parent_pairs_from(cat, x as int, i as int) =~= self@.parents
                + parent_pairs_from(cat, x as int, i + 1));
            i += 1;
        }
        assert(preorder_from(cat, x as int, n as int) =~= Seq::<usize>::empty());
        assert(parent_pairs_from(cat, x as int, n as int) =~= Seq::<(usize, Option<usize>)>::empty());
        assert(self@.commands =~= start_cmds + preorder(cat, x as int));
        assert(self@.parents =~= start_pairs + parent_pairs(cat, x as int));
    }
}

/// Whether the command is called `q` (by its main name or an alias).
pub open spec fn has_name(c: CommandView, q: Seq<char>) -> bool {
    c.names.contains(q)
}

/// The first command of `list` that is called `q`.
pub open spec fn first_named(cat: Seq<CommandView>, list: Seq<usize>, q: Seq<char>) -> Option<usize>
    decreases list.len(),
{
    if list.len() == 0 {
        None
    } else if list[0] < cat.len() && has_name(cat[list[0] as int], q) {
        Some(list[0])
    } else {
        first_named(cat, list.drop_first(), q)
    }
}

/// The outcome of looking a command up by its path of names.
pub enum SearchOutcome {
    RootCommandNotFound(Seq<char>),
    SubCommandNotFound(usize, Seq<char>),
    NotParentCommand(usize),
    Fond(usize),
}

/// Follows the names `query[i..]` down from the command `parent`.
pub open spec fn search_below(cat: Seq<CommandView>, parent: usize, query: Seq<Seq<char>>, i: int) -> SearchOutcome
    decreases query.len() - i,
{
    if i < 0 || i >= query.len() || parent >= cat.len() {
        SearchOutcome::Fond(parent)
    } else if cat[parent as int].subs.len() == 0 {
        SearchOutcome::NotParentCommand(parent)
    } else {
        match first_named(cat, cat[parent as int].subs, query[i]) {
            None => SearchOutcome::SubCommandNotFound(parent, query[i]),
            Some(c) => search_below(cat, c, query, i + 1),
        }
    }
}

/// Looks up the command named by the path `query`: the first root with the
/// first name, then at each step the first subcommand with the next name.
pub open spec fn search_outcome(l: CommandListView, query: Seq<Seq<char>>) -> SearchOutcome {
    match first_named(l.catalog, l.roots, query[0]) {
        None => SearchOutcome::RootCommandNotFound(query[0]),
        Some(r) => search_below(l.catalog, r, query, 1),
    }
}

/// The command found first by name is one of the list.
proof fn lemma_first_named_in(cat: Seq<CommandView>, list: Seq<usize>, q: Seq<char>)
    ensures
        first_named(cat, list, q) matches Some(c) ==> list.contains(c),
    decreases list.len(),
{
    if list.len() > 0 && !(list[0] < cat.len() && has_name(cat[list[0] as int], q)) {
        let rest = list.drop_first();
        lemma_first_named_in(cat, rest, q);
        if let Some(c) = first_named(cat, rest, q) {
            let w = choose|w: int| 0 <= w < rest.len() && rest[w] == c;
            assert(list[w + 1] == c);
        }
    } else if list.len() > 0 {
        assert(list[0] == list[0]);
    }
}

/// A registered command is documented, in the catalog, and its subcommands
/// are registered.
pub proof fn lemma_registered_documented(l: CommandListView, c: usize)
    requires
        l.wf(),
        l.commands.contains(c),
    ensures
        c < l.catalog.len(),
        documented(l.catalog[c as int]),
        forall|j: int| 0 <= j < l.catalog[c as int].subs.len() ==> l.commands.contains(
            #[trigger] l.catalog[c as int].subs[j],
        ),
{
    let w = choose|w: int| 0 <= w < l.commands.len() && l.commands[w] == c;
    assert(l.commands[w] < l.catalog.len());
    assert forall|j: int| 0 <= j < l.catalog[c as int].subs.len() implies l.commands.contains(
        #[trigger] l.catalog[c as int].subs[j],
    ) by {
        assert(l.commands.contains(l.catalog[l.commands[w] as int].subs[j]));
    }
}

/// Following names down from a registered command only reaches registered
/// commands.
proof fn lemma_search_below_registered(l: CommandListView, parent: usize, query: Seq<Seq<char>>, i: int)
    requires
        l.wf(),
        l.commands.contains(parent),
    ensures
        match search_below(l.catalog, parent, query, i) {
            SearchOutcome::Fond(c) => l.commands.contains(c),
            SearchOutcome::NotParentCommand(c) => l.commands.contains(c),
            SearchOutcome::SubCommandNotFound(c, _) => l.commands.contains(c),
            SearchOutcome::RootCommandNotFound(_) => false,
        },
    decreases query.len() - i,
{
    lemma_registered_documented(l, parent);
    if 0 <= i < query.len() && parent < l.catalog.len() && l.catalog[parent as int].subs.len() != 0 {
        let subs = l.catalog[parent as int].subs;
        lemma_first_named_in(l.catalog, subs, query[i]);
        if let Some(c) = first_named(l.catalog, subs, query[i]) {
            let w = choose|w: int| 0 <= w < subs.len() && subs[w] == c;
            assert(l.commands.contains(subs[w]));
            lemma_search_below_registered(l, c, query, i + 1);
        }
    }
}

/// Every command that a lookup reports (found, without subcommands, or
/// lacking the next subcommand) is a registered command.
pub proof fn lemma_search_registered(l: CommandListView, query: Seq<Seq<char>>)
    requires
        l.wf(),
    ensures
        match search_outcome(l, query) {
            SearchOutcome::Fond(c) => l.commands.contains(c),
            SearchOutcome::NotParentCommand(c) => l.commands.contains(c),
            SearchOutcome::SubCommandNotFound(c, _) => l.commands.contains(c),
            SearchOutcome::RootCommandNotFound(_) => true,
        },
{
    lemma_first_named_in(l.catalog, l.roots, query[0]);
    if let Some(r) = first_named(l.catalog, l.roots, query[0]) {
        let w = choose|w: int| 0 <= w < l.roots.len() && l.roots[w] == r;
        assert(l.commands.contains(l.roots[w]));
        lemma_search_below_registered(l, r, query, 1);
    }
}

/// The result of looking a command up by its path of names; commands are
/// given by their places in the catalog.
pub enum CommandSearchResult {
    RootCommandNotFound(String),
    SubCommandNotFound(usize, String),
    NotParentCommand(usize),
    Fond(usize),
}

impl View for CommandSearchResult {
    type V = SearchOutcome;

    open spec fn view(&self) -> SearchOutcome {
        match self {
            CommandSearchResult::RootCommandNotFound(q) => SearchOutcome::RootCommandNotFound(q@),
            CommandSearchResult::SubCommandNotFound(c, q) => SearchOutcome::SubCommandNotFound(*c, q@),
            CommandSearchResult::NotParentCommand(c) => SearchOutcome::NotParentCommand(*c),
            CommandSearchResult::Fond(c) => SearchOutcome::Fond(*c),
        }
    }
}

/// The commands of `list` that are called `q`, in order.
pub open spec fn all_named(cat: Seq<CommandView>, list: Seq<usize>, q: Seq<char>) -> Seq<usize>
    decreases list.len(),
{
    if list.len() == 0 {
        seq![]
    } else {
        let rest = all_named(cat, list.drop_last(), q);
        if list.last() < cat.len() && has_name(cat[list.last() as int], q) {
            rest.push(list.last())
        } else {
            rest
        }
    }
}

/// The parent recorded first for `c`: `Some(None)` for a top-level command,
/// `None` when `c` was never registered.
pub open spec fn parent_of(pairs: Seq<(usize, Option<usize>)>, c: usize) -> Option<Option<usize>>
    decreases pairs.len(),
{
    if pairs.len() == 0 {
        None
    } else if pairs[0].0 == c {
        Some(pairs[0].1)
    } else {
        parent_of(pairs.drop_first(), c)
    }
}

/// The main names from the outermost parent down to the command `c`.
pub open spec fn name_chain(l: CommandListView, c: usize) -> Seq<Seq<char>>
    decreases c,
{
    match parent_of(l.parents, c) {
        Some(Some(p)) => if p < c {
            name_chain(l, p).push(l.catalog[c as int].names[0])
        } else {
            seq![l.catalog[c as int].names[0]]
        },
        _ => seq![l.catalog[c as int].names[0]],
    }
}

/// Whether `names` holds `q`.
fn names_contain(names: &Vec<String>, q: &String) -> (b: bool)
    ensures
        b == strings_view(names@).contains(q@),
{
    let mut i: usize = 0;
    while i < names.len()
        invariant
            i <= names@.len(),
            forall|k: int| 0 <= k < i ==> names@[k]@ != q@,
        decreases names@.len() - i,
    {
        if names[i] == *q {
            assert(strings_view(names@)[i as int] == q@);
            return true;
        }
        i += 1;
    }
    assert forall|k: int| 0 <= k < strings_view(names@).len() implies strings_view(names@)[k] != q@ by {
        assert(strings_view(names@)[k] == names@[k]@);
    }
    false
}

impl CommandList {
    /// Registers a group: its top-level commands become roots, last first,
    /// and each of them with everything below it is recorded, the last one
    /// first, together with who is whose parent.
    #[verifier::spinoff_prover]
    #[verifier::rlimit(40)]
    pub fn add_group(&mut self, group: &CommandGroup)
        requires
            old(self)@.wf(),
            !group.owners_only,
            forall|k: int| 0 <= k < group.commands@.len() ==> #[trigger] group.commands@[k] < old(self)@.catalog.len(),
            all_documented(old(self)@.catalog, group_preorder(old(self)@.catalog, group.commands@)),
        ensures
            final(self)@.wf(),
            final(self)@.catalog == old(self)@.catalog,
            final(self)@.roots == old(self)@.roots + group.commands@.reverse(),
            final(self)@.commands == old(self)@.commands + group_preorder(old(self)@.catalog, group.commands@),
            final(self)@.parents == old(self)@.parents + group.commands@.map_values(
                |c: usize| (c, None::<usize>),
            ) + group_parent_pairs(old(self)@.catalog, group.commands@),
    {
        let ghost cat = self@.catalog;
        let ghost g = group.commands@;
        let ghost start = self@;
        let n = group.commands.len();
        let mut i: usize = 0;
        while i < n
            invariant
                self@.indices_wf(),
                self@.catalog == cat,
                self@.roots == start.roots,
                self@.commands == start.commands,
                cat == old(self)@.catalog,
                start == old(self)@,
                g == group.commands@,
                n == g.len(),
                i <= n,
                forall|k: int| 0 <= k < g.len() ==> #[trigger] g[k] < cat.len(),
                self@.parents == start.parents + g.take(i as int).map_values(|c: usize| (c, None::<usize>)),
            decreases n - i,
        {
            let c = group.commands[i];
            assert(c == g[i as int]);
            self.parents.push((c, None));
            assert(g.take(i + 1).map_values(|c: usize| (c, None::<usize>)) =~= g.take(i as int).map_values(
                |c: usize| (c, None::<usize>),
            ).push((c, None::<usize>)));
            i += 1;
        }
        assert(g.take(n as int) =~= g);
        let ghost mid = self@.parents;
        let mut k: usize = n;
        assert(g.take(n as int) =~= g);
        while k > 0
            invariant
                self@.indices_wf(),
                self@.catalog == cat,
                cat == old(self)@.catalog,
                start == old(self)@,
                g == group.commands@,
                n == g.len(),
                k <= n,
                forall|j: int| 0 <= j < g.len() ==> #[trigger] g[j] < cat.len(),
                start.roots + g.reverse() == self@.roots + g.take(k as int).reverse(),
                start.commands + group_preorder(cat, g) == self@.commands + group_preorder(cat, g.take(k as int)),
                mid + group_parent_pairs(cat, g) == self@.parents + group_parent_pairs(cat, g.take(k as int)),
                all_documented(cat, group_preorder(cat, g.take(k as int))),
            decreases k,
        {
            let c = group.commands[k - 1];
            let ghost tk = g.take(k as int);
            assert(tk.last() == c);
            assert(tk.drop_last() =~= g.take(k - 1));
            assert(tk.reverse() =~= seq![c] + g.take(k - 1).reverse());
            proof {
                lemma_documented_split(cat, preorder(cat, c as int), group_preorder(cat, g.take(k - 1)));
            }
            self.roots.push(c);
            let ghost before = self@;
            self.visit(c);
            assert(before.commands + group_preorder(cat, tk) =~= self@.commands + group_preorder(cat, g.take(k - 1)));
            assert(before.parents + group_parent_pairs(cat, tk) =~= self@.parents + group_parent_pairs(cat, g.take(k - 1)));
            k -= 1;
        }
        assert(g.take(0) =~= Seq::<usize>::empty());
        assert(g.take(0).reverse() =~= Seq::<usize>::empty());
        assert(self@.roots =~= start.roots + g.reverse());
        assert(self@.commands =~= start.commands + group_preorder(cat, g));
        assert(self@.parents =~= mid + group_parent_pairs(cat, g));
        proof {
            let added = group_preorder(cat, g);
            lemma_group_preorder_closed(cat, g);
            lemma_closed_concat(cat, start.commands, added);
            let cmds = self@.commands;
            assert forall|k: int| 0 <= k < cmds.len() implies 0 <= #[trigger] cmds[k] < cat.len()
                && documented(cat[cmds[k] as int]) by {
                if k < start.commands.len() {
                    assert(cmds[k] == start.commands[k]);
                } else {
                    assert(cmds[k] == added[k - start.commands.len()]);
                }
            }
            let roots = self@.roots;
            assert forall|k: int| 0 <= k < roots.len() implies cmds.contains(#[trigger] roots[k]) by {
                if k < start.roots.len() {
                    assert(roots[k] == start.roots[k]);
                    assert(start.commands.contains(start.roots[k]));
                    let w = choose|w: int| 0 <= w < start.commands.len() && start.commands[w] == roots[k];
                    assert(cmds[w] == roots[k]);
                } else {
                    let r = k - start.roots.len();
                    assert(roots[k] == g.reverse()[r]);
                    assert(g.reverse()[r] == g[g.len() - 1 - r]);
                    assert(added.contains(g[g.len() - 1 - r]));
                    let w = choose|w: int| 0 <= w < added.len() && added[w] == roots[k];
                    assert(cmds[w + start.commands.len()] == roots[k]);
                }
            }
        }
    }

    /// The root commands, in search order.
    pub fn roots(&self) -> (r: &[usize])
        ensures
            r@ == self@.roots,
    {
        self.roots.as_slice()
    }

    /// The first command of `list` that is called `q`.
    fn find_named(&self, list: &Vec<usize>, q: &String) -> (r: Option<usize>)
        requires
            self@.wf(),
        ensures
            r == first_named(self@.catalog, list@, q@),
            r matches Some(c) ==> c < self@.catalog.len(),
    {
        let mut i: usize = 0;
        assert(list@.skip(0) =~= list@);
        while i < list.len()
            invariant
                self@.wf(),
                i <= list@.len(),
                first_named(self@.catalog, list@, q@) == first_named(self@.catalog, list@.skip(i as int), q@),
            decreases list@.len() - i,
        {
            let c = list[i];
            assert(list@.skip(i as int)[0] == c);
            assert(list@.skip(i as int).drop_first() =~= list@.skip(i + 1));
            if c < self.catalog.len() {
                if names_contain(&self.catalog[c].names, q) {
                    return Some(c);
                }
            }
            i += 1;
        }
        None
    }

    /// Looks the command up by its path of names: the first root called
    /// `query[0]`, then at each step the first subcommand with the next name.
    pub fn search_from_root(&self, query: &Vec<String>) -> (r: CommandSearchResult)
        requires
            self@.wf(),
            query@.len() >= 1,
        ensures
            r@ == search_outcome(self@, strings_view(query@)),
            match r {
                CommandSearchResult::Fond(c) => c < self@.catalog.len(),
                CommandSearchResult::NotParentCommand(c) => c < self@.catalog.len(),
                CommandSearchResult::SubCommandNotFound(c, _) => c < self@.catalog.len(),
                CommandSearchResult::RootCommandNotFound(_) => true,
            },
    {
        let ghost qv = strings_view(query@);
        let mut parent = match self.find_named(&self.roots, &query[0]) {
            Some(c) => c,
            None => {
                return CommandSearchResult::RootCommandNotFound(query[0].clone());
            },
        };
        let mut i: usize = 1;
        while i < query.len()
            invariant
                self@.wf(),
                1 <= i <= query@.len(),
                qv == strings_view(query@),
                parent < self@.catalog.len(),
                search_outcome(self@, qv) == search_below(self@.catalog, parent, qv, i as int),
            decreases query@.len() - i,
        {
            if self.sub_count(parent) == 0 {
                return CommandSearchResult::NotParentCommand(parent);
            }
            assert(self@.catalog[parent as int].subs == self.catalog@[parent as int].sub_commands@);
            match self.find_named(&self.catalog[parent].sub_commands, &query[i]) {
                Some(c) => {
                    parent = c;
                },
                None => {
                    return CommandSearchResult::SubCommandNotFound(parent, query[i].clone());
                },
            }
            i += 1;
        }
        CommandSearchResult::Fond(parent)
    }

    /// Every registered command called `query`, in registration order.
    pub fn search_command(&self, query: &String) -> (r: Vec<usize>)
        requires
            self@.wf(),
        ensures
            r@ == all_named(self@.catalog, self@.commands, query@),
    {
        let mut result: Vec<usize> = Vec::new();
        let mut i: usize = 0;
        assert(self@.commands.take(0) =~= Seq::<usize>::empty());
        while i < self.commands.len()
            invariant
                self@.wf(),
                i <= self@.commands.len(),
                result@ == all_named(self@.catalog, self@.commands.take(i as int), query@),
            decreases self@.commands.len() - i,
        {
            let c = self.commands[i];
            let ghost next = self@.commands.take(i + 1);
            assert(next.drop_last() =~= self@.commands.take(i as int));
            assert(next.last() == c);
            if names_contain(&self.catalog[c].names, query) {
                result.push(c);
            }
            i += 1;
        }
        assert(self@.commands.take(i as int) =~= self@.commands);
        result
    }

    /// The parent recorded for `command`: `Some(None)` for a top-level
    /// command, `None` when it was never registered.
    pub fn parent(&self, command: usize) -> (r: Option<Option<usize>>)
        requires
            self@.wf(),
        ensures
            r == parent_of(self@.parents, command),
            r matches Some(Some(p)) ==> p < command,
    {
        let mut i: usize = 0;
        assert(self@.parents.skip(0) =~= self@.parents);
        while i < self.parents.len()
            invariant
                self@.wf(),
                i <= self@.parents.len(),
                parent_of(self@.parents, command) == parent_of(self@.parents.skip(i as int), command),
            decreases self@.parents.len() - i,
        {
            let (key, parent) = self.parents[i];
            assert(self@.parents.skip(i as int)[0] == (key, parent));
            assert(self@.parents.skip(i as int).drop_first() =~= self@.parents.skip(i + 1));
            if key == command {
                assert(self@.parents[i as int].1 matches Some(p) ==> p < self@.parents[i as int].0);
                return Some(parent);
            }
            i += 1;
        }
        None
    }

    /// The main names from the outermost parent down to `command`, as the
    /// command is written out in full.
    pub fn full_name(&self, command: usize) -> (r: Vec<String>)
        requires
            self@.wf(),
            command < self@.catalog.len(),
        ensures
            strings_view(r@) == name_chain(self@, command),
        decreases command,
    {
        assert(self@.catalog[command as int].names.len() >= 1);
        assert(self@.catalog[command as int].names == strings_view(self.catalog@[command as int].names@));
        let own = self.catalog[command].names[0].clone();
        assert(own@ == self@.catalog[command as int].names[0]);
        match self.parent(command) {
            Some(Some(p)) => {
                let mut r = self.full_name(p);
                let ghost before = r@;
                r.push(own);
                assert(strings_view(r@) =~= strings_view(before).push(own@));
                r
            },
            _ => {
                let r = vec![own];
                assert(strings_view(r@) =~= seq![own@]);
                r
            },
        }
    }
}

impl CommandList {
    /// The main name and the description of a command that has one.
    pub fn name_and_desc(&self, c: usize) -> (r: (String, String))
        requires
            self@.wf(),
            c < self@.catalog.len(),
            self@.catalog[c as int].desc is Some,
        ensures
            r.0@ == self@.catalog[c as int].names[0],
            r.1@ == self@.catalog[c as int].desc->0,
    {
        let info = &self.catalog[c];
        assert(self@.catalog[c as int] == info@);
        assert(info@.names.len() >= 1);
        assert(info@.names[0] == info.names@[0]@);
        let name = info.names[0].clone();
        let desc = match &info.desc {
            Some(d) => d.clone(),
            None => String::new(),
        };
        (name, desc)
    }
}

impl CommandList {
    /// The aliases of a command: every name after the main one.
    pub fn aliases(&self, c: usize) -> (r: Vec<String>)
        requires
            self@.wf(),
            c < self@.catalog.len(),
        ensures
            strings_view(r@) == self@.catalog[c as int].names.skip(1),
    {
        let info = &self.catalog[c];
        assert(self@.catalog[c as int] == info@);
        let mut r: Vec<String> = Vec::new();
        let mut i: usize = 1;
        assert(info@.names.len() >= 1);
        while i < info.names.len()
            invariant
                1 <= i <= info.names@.len(),
                strings_view(r@) == strings_view(info.names@).subrange(1, i as int),
            decreases info.names@.len() - i,
        {
            let ghost before = r@;
            let name = info.names[i].clone();
            r.push(name);
            proof {
                lemma_strings_view_push(before, name);
            }
            assert(strings_view(info.names@)[i as int] == name@);
            assert(strings_view(r@) =~= strings_view(info.names@).subrange(1, i + 1));
            i += 1;
        }
        assert(strings_view(info.names@).subrange(1, i as int) =~= strings_view(info.names@).skip(1));
        r
    }

    /// The main names of the subcommands of a command, in order.
    pub fn sub_names(&self, c: usize) -> (r: Vec<String>)
        requires
            self@.wf(),
            c < self@.catalog.len(),
        ensures
            strings_view(r@) == self@.catalog[c as int].subs.map_values(
                |s: usize| self@.catalog[s as int].names[0],
            ),
    {
        let ghost cat = self@.catalog;
        let n = self.sub_count(c);
        let mut r: Vec<String> = Vec::new();
        let mut i: usize = 0;
        while i < n
            invariant
                self@.wf(),
                cat == self@.catalog,
                c < cat.len(),
                n == cat[c as int].subs.len(),
                i <= n,
                strings_view(r@) == cat[c as int].subs.take(i as int).map_values(
                    |s: usize| cat[s as int].names[0],
                ),
            decreases n - i,
        {
            let s = self.sub_at(c, i);
            assert(cat[s as int].names.len() >= 1);
            assert(cat[s as int] == self.catalog@[s as int]@);
            let name = self.catalog[s].names[0].clone();
            assert(name@ == cat[s as int].names[0]);
            let ghost before = r@;
            r.push(name);
            proof {
                lemma_strings_view_push(before, name);
            }
            assert(strings_view(r@) =~= cat[c as int].subs.take(i + 1).map_values(
                |s: usize| cat[s as int].names[0],
            ));
            i += 1;
        }
        assert(cat[c as int].subs.take(n as int) =~= cat[c as int].subs);
        r
    }

    /// The usage line and the example arguments of a command.
    pub fn usage_and_examples(&self, c: usize) -> (r: (Option<String>, Vec<String>))
        requires
            self@.wf(),
            c < self@.catalog.len(),
        ensures
            opt_view(r.0) == self@.catalog[c as int].usage,
            strings_view(r.1@) == self@.catalog[c as int].examples,
    {
        let info = &self.catalog[c];
        assert(self@.catalog[c as int] == info@);
        let usage = match &info.usage {
            Some(u) => Some(u.clone()),
            None => None,
        };
        let mut examples: Vec<String> = Vec::new();
        let mut i: usize = 0;
        while i < info.examples.len()
            invariant
                i <= info.examples@.len(),
                strings_view(examples@) == strings_view(info.examples@).take(i as int),
            decreases info.examples@.len() - i,
        {
            let ghost before = examples@;
            let e = info.examples[i].clone();
            examples.push(e);
            proof {
                lemma_strings_view_push(before, e);
            }
            assert(strings_view(info.examples@)[i as int] == e@);
            assert(strings_view(examples@) =~= strings_view(info.examples@).take(i + 1));
            i += 1;
        }
        assert(strings_view(info.examples@).take(i as int) =~= strings_view(info.examples@));
        (usage, examples)
    }
}

impl CommandList {
    /// The subcommands of a command, by their places in the catalog.
    pub fn sub_list(&self, c: usize) -> (r: Vec<usize>)
        requires
            self@.wf(),
            c < self@.catalog.len(),
        ensures
            r@ == self@.catalog[c as int].subs,
    {
        let info = &self.catalog[c];
        assert(self@.catalog[c as int] == info@);
        let mut r: Vec<usize> = Vec::new();
        let mut i: usize = 0;
        while i < info.sub_commands.len()
            invariant
                i <= info.sub_commands@.len(),
                r@ == info.sub_commands@.take(i as int),
            decreases info.sub_commands@.len() - i,
        {
            r.push(info.sub_commands[i]);
            assert(r@ =~= info.sub_commands@.take(i + 1));
            i += 1;
        }
        assert(info.sub_commands@.take(i as int) =~= info.sub_commands@);
        r
    }
}

} // verus!
