use vstd::prelude::*;

use std::collections::HashMap;

use crate::moodle::{
    course_after_update, fetched_view, report_view, update_report, CourseView, HtmlChange,
    MoodleContext, MoodleCourseData, MoodleErr,
};
use crate::groups::random_below;
use crate::text::{
    all_digits, chars_eq, decimal, decimal_chars, chars_of, is_digit, join_with, lemma_decimal_reads_back,
    lemma_split_after, lemma_split_join_back, lemma_split_on_nonempty, lemma_split_single, parse_u32, parse_u64, parsed_u32,
    parsed_u64, split_chars, split_on, starts_with, starts_with_chars, string_of,
};

verus! {

broadcast use vstd::string::group_string_axioms;

// ---------------------------------------------------------------------------
// Commands
// ---------------------------------------------------------------------------
/// A command addressed to the bot.
pub enum Command {
    /// Watch the courses with these ids, in this order.
    Watch(Vec<u32>),
    /// Stop watching the courses with these ids, in this order.
    Unwatch(Vec<u32>),
    /// Announce the end of a timer of this many seconds.
    Timer(u64),
    /// Split the current group into random teams.
    MakeGroups,
    /// Make these the members of the group.
    SetGroup(Vec<String>),
}

/// A command, seen by its plain values.
pub enum CommandView {
    Watch(Seq<u32>),
    Unwatch(Seq<u32>),
    Timer(u64),
    MakeGroups,
    SetGroup(Seq<Seq<char>>),
}

impl View for Command {
    type V = CommandView;

    open spec fn view(&self) -> CommandView {
        match self {
            Command::Watch(ids) => CommandView::Watch(ids@),
            Command::Unwatch(ids) => CommandView::Unwatch(ids@),
            Command::Timer(t) => CommandView::Timer(*t),
            Command::MakeGroups => CommandView::MakeGroups,
            Command::SetGroup(members) => CommandView::SetGroup(members@.map_values(|m: String| m@)),
        }
    }
}

/// The course ids among `words`: those that read as a `u32`, in order.
pub open spec fn ids_in(words: Seq<Seq<char>>) -> Seq<u32>
    decreases words.len(),
{
    if words.len() == 0 {
        Seq::<u32>::empty()
    } else {
        let prev = ids_in(words.drop_last());
        match parsed_u32(words.last()) {
            Some(id) => prev.push(id),
            None => prev,
        }
    }
}

/// How a user mentions the bot with id `client`: `<@id>` or `<@!id>`.
pub open spec fn mentions_bot(content: Seq<char>, client: Seq<char>) -> bool {
    starts_with(content, "<@!"@ + client + ">"@) || starts_with(content, "<@"@ + client + ">"@)
}

/// The command in the message `content`, if the message is one for the bot
/// with id `client`. The message is split at single spaces; it must begin by
/// mentioning the bot and have a second word, the command's name:
/// `watch` and `unwatch` take one or more further words (those that are not
/// course ids are passed over), `timer` exactly one, a number of seconds;
/// `makegroups` alone splits the group, with further words it sets them as
/// the group's members.
pub open spec fn command_spec(content: Seq<char>, client: Seq<char>) -> Option<CommandView> {
    let words = split_on(content, ' ');
    if mentions_bot(content, client) && words.len() >= 2 {
        let name = words[1];
        let args = words.skip(2);
        if name == "watch"@ && words.len() >= 3 {
            Some(CommandView::Watch(ids_in(args)))
        } else if name == "unwatch"@ && words.len() >= 3 {
            Some(CommandView::Unwatch(ids_in(args)))
        } else if name == "timer"@ && words.len() == 3 {
            match parsed_u64(words[2]) {
                Some(t) => Some(CommandView::Timer(t)),
                None => None,
            }
        } else if name == "makegroups"@ && words.len() == 2 {
            Some(CommandView::MakeGroups)
        } else if name == "makegroups"@ && words.len() >= 3 {
            Some(CommandView::SetGroup(args))
        } else {
            None
        }
    } else {
        None
    }
}

/// `a`, `b` and `c` one after the other.
fn join3(a: &[char], b: &[char], c: &[char]) -> (res: Vec<char>)
    ensures
        res@ == a@ + b@ + c@,
{
    let mut res: Vec<char> = Vec::new();
    let mut i: usize = 0;
    while i < a.len()
        invariant
            i <= a@.len(),
            res@ == a@.take(i as int),
        decreases a@.len() - i,
    {
        res.push(a[i]);
        i = i + 1;
        assert(res@ =~= a@.take(i as int));
    }
    let mut j: usize = 0;
    while j < b.len()
        invariant
            i == a@.len(),
            j <= b@.len(),
            res@ == a@ + b@.take(j as int),
        decreases b@.len() - j,
    {
        res.push(b[j]);
        j = j + 1;
        assert(res@ =~= a@ + b@.take(j as int));
    }
    let mut k: usize = 0;
    while k < c.len()
        invariant
            i == a@.len(),
            j == b@.len(),
            k <= c@.len(),
            res@ == a@ + b@ + c@.take(k as int),
        decreases c@.len() - k,
    {
        res.push(c[k]);
        k = k + 1;
        assert(res@ =~= a@ + b@ + c@.take(k as int));
    }
    assert(a@.take(a@.len() as int) =~= a@);
    assert(b@.take(b@.len() as int) =~= b@);
    assert(c@.take(c@.len() as int) =~= c@);
    res
}

/// The course ids among `words[2..]`.
fn ids_from(words: &Vec<Vec<char>>) -> (res: Vec<u32>)
    requires
        words@.len() >= 2,
    ensures
        res@ == ids_in(words@.map_values(|w: Vec<char>| w@).skip(2)),
{
    let ghost all = words@.map_values(|w: Vec<char>| w@);
    let mut res: Vec<u32> = Vec::new();
    let mut i: usize = 2;
    assert(all.skip(2).take(0) =~= Seq::<Seq<char>>::empty());
    while i < words.len()
        invariant
            2 <= i <= words@.len(),
            all == words@.map_values(|w: Vec<char>| w@),
            res@ == ids_in(all.skip(2).take(i - 2)),
        decreases words@.len() - i,
    {
        let ghost upto = all.skip(2).take(i - 2 + 1);
        assert(upto.drop_last() =~= all.skip(2).take(i - 2));
        assert(upto.last() == words@[i as int]@);
        match parse_u32(words[i].as_slice()) {
            Some(id) => {
                res.push(id);
            },
            None => {},
        }
        i = i + 1;
    }
    assert(all.skip(2).take(words@.len() - 2) =~= all.skip(2));
    res
}

/// The words `words[2..]`, as strings.
fn members_from(words: &Vec<Vec<char>>) -> (res: Vec<String>)
    requires
        words@.len() >= 2,
    ensures
        res@.map_values(|m: String| m@) == words@.map_values(|w: Vec<char>| w@).skip(2),
{
    let ghost all = words@.map_values(|w: Vec<char>| w@);
    let mut res: Vec<String> = Vec::new();
    let mut i: usize = 2;
    while i < words.len()
        invariant
            2 <= i <= words@.len(),
            all == words@.map_values(|w: Vec<char>| w@),
            res@.map_values(|m: String| m@) == all.skip(2).take(i - 2),
        decreases words@.len() - i,
    {
        let m = string_of(words[i].as_slice());
        let ghost before = res@;
        res.push(m);
        proof {
            let mapped = res@.map_values(|m: String| m@);
            let want = all.skip(2).take(i - 2 + 1);
            assert(before.map_values(|m: String| m@) == all.skip(2).take(i - 2));
            assert(all.len() == words@.len());
            assert(all[i as int] == words@[i as int]@);
            assert(m@ == words@[i as int]@);
            assert(before.map_values(|m: String| m@).len() == before.len());
            assert(before.len() == i - 2);
            assert(mapped.len() == res@.len());
            assert(want.len() == mapped.len());
            assert forall|k: int| 0 <= k < mapped.len() implies mapped[k] == want[k] by {
                if k < before.len() {
                    assert(res@[k] == before[k]);
                    assert(before.map_values(|m: String| m@)[k] == before[k]@);
                } else {
                    assert(res@[k] == m);
                    assert(want[k] == all[k + 2]);
                }
            }
            assert(mapped =~= want);
        }
        i = i + 1;
    }
    assert(all.skip(2).take(words@.len() - 2) =~= all.skip(2));
    res
}

/// The command in the message `content`, if it is one for the bot whose
/// user id is `client`.
pub fn parse_command(content: &str, client: &str) -> (res: Option<Command>)
    ensures
        match command_spec(content@, client@) {
            Some(c) => res matches Some(r) && r@ == c,
            None => res is None,
        },
{
    let text = chars_of(content);
    let id = chars_of(client);
    let nick = join3(chars_of("<@!").as_slice(), id.as_slice(), chars_of(">").as_slice());
    let plain = join3(chars_of("<@").as_slice(), id.as_slice(), chars_of(">").as_slice());
    let words = split_chars(&text, ' ');
    let ghost all = words@.map_values(|w: Vec<char>| w@);
    assert(all =~= split_on(text@, ' '));
    if !((starts_with_chars(text.as_slice(), nick.as_slice()) || starts_with_chars(text.as_slice(), plain.as_slice()))
        && words.len() >= 2) {
        return None;
    }
    let name = &words[1];
    assert(name@ == all[1]);
    assert(all.skip(2) =~= split_on(text@, ' ').skip(2));
    if chars_eq(name.as_slice(), chars_of("watch").as_slice()) && words.len() >= 3 {
        Some(Command::Watch(ids_from(&words)))
    } else if chars_eq(name.as_slice(), chars_of("unwatch").as_slice()) && words.len() >= 3 {
        Some(Command::Unwatch(ids_from(&words)))
    } else if chars_eq(name.as_slice(), chars_of("timer").as_slice()) && words.len() == 3 {
        assert(words@[2]@ == all[2]);
        match parse_u64(words[2].as_slice()) {
            Some(t) => Some(Command::Timer(t)),
            None => None,
        }
    } else if chars_eq(name.as_slice(), chars_of("makegroups").as_slice()) && words.len() == 2 {
        Some(Command::MakeGroups)
    } else if chars_eq(name.as_slice(), chars_of("makegroups").as_slice()) && words.len() >= 3 {
        Some(Command::SetGroup(members_from(&words)))
    } else {
        None
    }
}

/// The words of a message that mentions the bot and then names a command:
/// the mention, the command's name, then the words of the rest.
proof fn lemma_command_words(client: Seq<char>, name: Seq<char>, rest: Seq<char>)
    requires
        forall|i: int| 0 <= i < client.len() ==> client[i] != ' ',
        forall|i: int| 0 <= i < name.len() ==> name[i] != ' ',
    ensures
        split_on("<@"@ + client + ">"@ + seq![' '] + name + seq![' '] + rest, ' ')
            == seq!["<@"@ + client + ">"@, name] + split_on(rest, ' '),
{
    reveal_strlit("<@");
    reveal_strlit(">");
    let m = "<@"@ + client + ">"@;
    assert forall|i: int| 0 <= i < m.len() implies m[i] != ' ' by {
        if 2 <= i < 2 + client.len() {
            assert(m[i] == client[i - 2]);
        }
    }
    lemma_split_after(name, rest, ' ');
    lemma_split_after(m, name + seq![' '] + rest, ' ');
    assert(m + seq![' '] + name + seq![' '] + rest =~= m + seq![' '] + (name + seq![' '] + rest));
    assert(seq![m] + (seq![name] + split_on(rest, ' ')) =~= seq![m, name] + split_on(rest, ' '));
}

/// An `unwatch` command takes every course id that follows it, the very
/// same ids, in the same order, as a `watch` command with the same words:
/// whatever follows the command's name, the two lists agree.
pub proof fn lemma_unwatch_takes_every_id(client: Seq<char>, rest: Seq<char>)
    requires
        forall|i: int| 0 <= i < client.len() ==> client[i] != ' ',
    ensures
        command_spec("<@"@ + client + ">"@ + " unwatch "@ + rest, client)
            == Some(CommandView::Unwatch(ids_in(split_on(rest, ' ')))),
        command_spec("<@"@ + client + ">"@ + " watch "@ + rest, client)
            == Some(CommandView::Watch(ids_in(split_on(rest, ' ')))),
{
    reveal_strlit("<@");
    reveal_strlit(">");
    reveal_strlit(" unwatch ");
    reveal_strlit(" watch ");
    reveal_strlit("unwatch");
    reveal_strlit("watch");
    let m = "<@"@ + client + ">"@;
    lemma_split_on_nonempty(rest, ' ');
    let un = "unwatch"@;
    let w = "watch"@;
    assert(" unwatch "@ =~= seq![' '] + un + seq![' ']);
    assert(" watch "@ =~= seq![' '] + w + seq![' ']);
    let c1 = m + " unwatch "@ + rest;
    let c2 = m + " watch "@ + rest;
    assert(c1 =~= m + seq![' '] + un + seq![' '] + rest);
    assert(c2 =~= m + seq![' '] + w + seq![' '] + rest);
    lemma_command_words(client, un, rest);
    lemma_command_words(client, w, rest);
    let words1 = split_on(c1, ' ');
    let words2 = split_on(c2, ' ');
    assert(words1.skip(2) =~= split_on(rest, ' '));
    assert(words2.skip(2) =~= split_on(rest, ' '));
    assert(words1[1] == un);
    assert(words2[1] == w);
    assert(un.len() != w.len());
    assert(c1.take(m.len() as int) =~= m);
    assert(c2.take(m.len() as int) =~= m);
    assert(mentions_bot(c1, client));
    assert(mentions_bot(c2, client));
}

/// The course ids among the decimal numbers `ids`.
proof fn lemma_ids_in_decimals(ids: Seq<u32>)
    ensures
        ids_in(ids.map_values(|id: u32| decimal(id as nat))) == ids,
    decreases ids.len(),
{
    let ws = ids.map_values(|id: u32| decimal(id as nat));
    if ids.len() == 0 {
        assert(ws =~= Seq::<Seq<char>>::empty());
        assert(ids =~= Seq::<u32>::empty());
    } else {
        assert(ws.drop_last() =~= ids.drop_last().map_values(|id: u32| decimal(id as nat)));
        lemma_ids_in_decimals(ids.drop_last());
        lemma_decimal_reads_back(ids.last() as nat);
        assert(ws.last() == decimal(ids.last() as nat));
        assert(ids.drop_last().push(ids.last()) =~= ids);
    }
}

/// A command that lists course ids as a user types them, one or more
/// numbers after `unwatch` (or `watch`), stands for exactly those courses,
/// every one of them, in the order given.
pub proof fn lemma_listed_ids_are_taken(client: Seq<char>, ids: Seq<u32>)
    requires
        forall|i: int| 0 <= i < client.len() ==> client[i] != ' ',
        ids.len() >= 1,
    ensures
        command_spec(
            "<@"@ + client + ">"@ + " unwatch "@ + join_with(ids.map_values(|id: u32| decimal(id as nat)), ' '),
            client,
        ) == Some(CommandView::Unwatch(ids)),
        command_spec(
            "<@"@ + client + ">"@ + " watch "@ + join_with(ids.map_values(|id: u32| decimal(id as nat)), ' '),
            client,
        ) == Some(CommandView::Watch(ids)),
{
    let ws = ids.map_values(|id: u32| decimal(id as nat));
    assert forall|i: int, j: int| 0 <= i < ws.len() && 0 <= j < ws[i].len() implies #[trigger] ws[i][j] != ' ' by {
        lemma_decimal_reads_back(ids[i] as nat);
        assert(ws[i] == decimal(ids[i] as nat));
        assert(is_digit(ws[i][j]));
    }
    lemma_split_join_back(ws, ' ');
    lemma_ids_in_decimals(ids);
    lemma_unwatch_takes_every_id(client, join_with(ws, ' '));
}

/// The other commands as a user types them: `timer` with a number of
/// seconds announces that many seconds; `makegroups` alone splits the
/// group; `makegroups` with names makes exactly those names, all of them in
/// order, the group's members.
pub proof fn lemma_commands_as_typed(client: Seq<char>, seconds: u64, names: Seq<Seq<char>>)
    requires
        forall|i: int| 0 <= i < client.len() ==> client[i] != ' ',
        names.len() >= 1,
        forall|i: int, j: int| 0 <= i < names.len() && 0 <= j < names[i].len() ==> #[trigger] names[i][j] != ' ',
    ensures
        command_spec("<@"@ + client + ">"@ + " timer "@ + decimal(seconds as nat), client)
            == Some(CommandView::Timer(seconds)),
        command_spec("<@"@ + client + ">"@ + " makegroups"@, client) == Some(CommandView::MakeGroups),
        command_spec("<@"@ + client + ">"@ + " makegroups "@ + join_with(names, ' '), client)
            == Some(CommandView::SetGroup(names)),
{
    reveal_strlit("<@");
    reveal_strlit(">");
    reveal_strlit(" timer ");
    reveal_strlit(" makegroups");
    reveal_strlit(" makegroups ");
    reveal_strlit("unwatch");
    reveal_strlit("watch");
    reveal_strlit("timer");
    reveal_strlit("makegroups");
    let m = "<@"@ + client + ">"@;
    assert forall|i: int| 0 <= i < m.len() implies m[i] != ' ' by {
        if 2 <= i < 2 + client.len() {
            assert(m[i] == client[i - 2]);
        }
    }
    let tn = "timer"@;
    let mg = "makegroups"@;
    // timer
    let d = decimal(seconds as nat);
    lemma_decimal_reads_back(seconds as nat);
    assert forall|i: int| 0 <= i < d.len() implies d[i] != ' ' by {
        assert(is_digit(d[i]));
    }
    lemma_split_single(d, ' ');
    assert(" timer "@ =~= seq![' '] + tn + seq![' ']);
    let c1 = m + " timer "@ + d;
    assert(c1 =~= m + seq![' '] + tn + seq![' '] + d);
    lemma_command_words(client, tn, d);
    assert(split_on(c1, ' ') =~= seq![m, tn, d]);
    assert(c1.take(m.len() as int) =~= m);
    assert(mentions_bot(c1, client));
    // makegroups alone
    let c2 = m + " makegroups"@;
    assert(c2 =~= m + seq![' '] + mg);
    lemma_split_single(mg, ' ');
    lemma_split_after(m, mg, ' ');
    assert(split_on(c2, ' ') =~= seq![m, mg]);
    assert(c2.take(m.len() as int) =~= m);
    assert(mentions_bot(c2, client));
    // makegroups with names
    let j = join_with(names, ' ');
    lemma_split_join_back(names, ' ');
    assert(" makegroups "@ =~= seq![' '] + mg + seq![' ']);
    let c3 = m + " makegroups "@ + j;
    assert(c3 =~= m + seq![' '] + mg + seq![' '] + j);
    lemma_command_words(client, mg, j);
    assert(split_on(c3, ' ').skip(2) =~= names);
    assert(c3.take(m.len() as int) =~= m);
    assert(mentions_bot(c3, client));
    assert(mg.len() != "watch"@.len() && mg.len() != "unwatch"@.len() && mg.len() != tn.len());
    assert(tn[0] != "watch"@[0] && tn.len() != "unwatch"@.len());
}

// ---------------------------------------------------------------------------
// Which channel watches which courses
// ---------------------------------------------------------------------------
/// The courses each channel watches, with the last snapshot of each.
pub struct Subscriptions {
    channels: HashMap<u64, Vec<MoodleCourseData>>,
}

/// Snapshots, seen by their plain values.
pub open spec fn course_views(cs: Seq<MoodleCourseData>) -> Seq<CourseView> {
    cs.map_values(|c: MoodleCourseData| c@)
}

/// No course occurs twice in `cs`.
pub open spec fn ids_distinct(cs: Seq<CourseView>) -> bool {
    forall|i: int, j: int| 0 <= i < j < cs.len() ==> #[trigger] cs[i].id != #[trigger] cs[j].id
}

/// The first position of course `id` in `cs`.
pub open spec fn position_of(cs: Seq<CourseView>, id: u32) -> Option<int>
    decreases cs.len(),
{
    if cs.len() == 0 {
        None
    } else if cs[0].id == id {
        Some(0)
    } else {
        match position_of(cs.drop_first(), id) {
            Some(i) => Some(i + 1),
            None => None,
        }
    }
}

/// The watch lists after `channel` asks to watch course `c`: a course the
/// channel already watches is not added again.
pub open spec fn watch_spec(m: Map<u64, Seq<CourseView>>, channel: u64, c: CourseView) -> Map<u64, Seq<CourseView>> {
    if m.contains_key(channel) {
        if position_of(m[channel], c.id) is Some {
            m
        } else {
            m.insert(channel, m[channel].push(c))
        }
    } else {
        m.insert(channel, seq![c])
    }
}

/// The watch lists after `channel` asks to stop watching course `id`.
pub open spec fn unwatch_spec(m: Map<u64, Seq<CourseView>>, channel: u64, id: u32) -> Map<u64, Seq<CourseView>> {
    if m.contains_key(channel) {
        match position_of(m[channel], id) {
            Some(i) => m.insert(channel, m[channel].remove(i)),
            None => m,
        }
    } else {
        m
    }
}

pub proof fn lemma_position_of(cs: Seq<CourseView>, id: u32)
    ensures
        match position_of(cs, id) {
            Some(i) => 0 <= i < cs.len() && cs[i].id == id && forall|k: int| 0 <= k < i ==> cs[k].id != id,
            None => forall|k: int| 0 <= k < cs.len() ==> cs[k].id != id,
        },
    decreases cs.len(),
{
    if cs.len() > 0 {
        lemma_position_of(cs.drop_first(), id);
        assert forall|k: int| 1 <= k < cs.len() implies cs[k] == cs.drop_first()[k - 1] by {}
    }
}

impl View for Subscriptions {
    type V = Map<u64, Seq<CourseView>>;

    closed spec fn view(&self) -> Map<u64, Seq<CourseView>> {
        Map::new(|k: u64| self.channels@.contains_key(k), |k: u64| course_views(self.channels@[k]@))
    }
}

impl Subscriptions {
    #[verifier::type_invariant]
    closed spec fn no_course_twice(&self) -> bool {
        forall|k: u64| #[trigger] self.channels@.contains_key(k) ==> ids_distinct(course_views(self.channels@[k]@))
    }

    /// No channel watches anything.
    pub fn new() -> (res: Subscriptions)
        ensures
            res@ == Map::<u64, Seq<CourseView>>::empty(),
    {
        let res = Subscriptions { channels: HashMap::new() };
        assert(res@ =~= Map::<u64, Seq<CourseView>>::empty());
        res
    }

    /// The position of course `id` in `cs`.
    fn find_course(cs: &Vec<MoodleCourseData>, id: u32) -> (res: Option<usize>)
        ensures
            match position_of(course_views(cs@), id) {
                Some(i) => res matches Some(r) && r as int == i,
                None => res is None,
            },
    {
        let ghost views = course_views(cs@);
        proof {
            lemma_position_of(views, id);
        }
        let mut k: usize = 0;
        while k < cs.len()
            invariant
                k <= cs@.len(),
                views == course_views(cs@),
                forall|j: int| 0 <= j < k ==> #[trigger] views[j].id != id,
                match position_of(views, id) {
                    Some(i) => 0 <= i < views.len() && views[i].id == id && forall|j: int| 0 <= j < i ==> views[j].id != id,
                    None => forall|j: int| 0 <= j < views.len() ==> views[j].id != id,
                },
            decreases cs@.len() - k,
        {
            assert(views[k as int] == cs@[k as int]@);
            if cs[k].id() == id {
                proof {
                    match position_of(views, id) {
                        Some(i) => {
                            if i < k {
                                assert(views[i].id != id);
                            }
                            if i > k {
                                assert(views[k as int].id != id);
                            }
                        },
                        None => {},
                    }
                }
                return Some(k);
            }
            k = k + 1;
        }
        None
    }

    /// `channel` watches course `course` from now on, unless it already
    /// watches a course with the same id. True where the course was added.
    pub fn watch(&mut self, channel: u64, course: MoodleCourseData) -> (added: bool)
        ensures
            final(self)@ == watch_spec(old(self)@, channel, course@),
            added == !(old(self)@.contains_key(channel) && position_of(old(self)@[channel], course@.id) is Some),
    {
        proof {
            use_type_invariant(&*self);
        }
        let ghost before = self@;
        let ghost cv = course@;
        let mut channels: HashMap<u64, Vec<MoodleCourseData>> = HashMap::new();
        std::mem::swap(&mut channels, &mut self.channels);
        let ghost old_channels = channels@;
        let mut list = match channels.remove(&channel) {
            Some(l) => l,
            None => Vec::new(),
        };
        assert(before.contains_key(channel) ==> course_views(list@) == before[channel]);
        assert(!before.contains_key(channel) ==> list@ == Seq::<MoodleCourseData>::empty());
        let found = Self::find_course(&list, course.id());
        let added = found.is_none();
        if added {
            let ghost old_list = list@;
            list.push(course);
            proof {
                assert(course_views(list@) =~= course_views(old_list).push(cv));
                lemma_position_of(course_views(old_list), cv.id);
            }
        }
        channels.insert(channel, list);
        proof {
            if !before.contains_key(channel) {
                assert(course_views(Seq::<MoodleCourseData>::empty().push(course)) =~= seq![cv]);
            }
            assert forall|k: u64| #[trigger] channels@.contains_key(k) implies ids_distinct(
                course_views(channels@[k]@),
            ) by {
                if k != channel {
                    assert(old_channels.contains_key(k));
                }
            }
        }
        std::mem::swap(&mut channels, &mut self.channels);
        proof {
            assert(self@ =~= watch_spec(before, channel, cv));
        }
        added
    }
}

impl Subscriptions {
    /// `channel` stops watching course `id`. True where it watched it.
    pub fn unwatch(&mut self, channel: u64, id: u32) -> (removed: bool)
        ensures
            final(self)@ == unwatch_spec(old(self)@, channel, id),
            removed == (old(self)@.contains_key(channel) && position_of(old(self)@[channel], id) is Some),
    {
        proof {
            use_type_invariant(&*self);
        }
        let ghost before = self@;
        let mut channels: HashMap<u64, Vec<MoodleCourseData>> = HashMap::new();
        std::mem::swap(&mut channels, &mut self.channels);
        let ghost old_channels = channels@;
        let mut removed = false;
        match channels.remove(&channel) {
            None => {
                assert(channels@ =~= old_channels);
            },
            Some(mut list) => {
                let ghost old_list = list@;
                assert(course_views(old_list) == before[channel]);
                match Self::find_course(&list, id) {
                    None => {
                        assert(channels@.insert(channel, list) =~= old_channels);
                        assert(position_of(before[channel], id) is None);
                        assert(unwatch_spec(before, channel, id) == before);
                    },
                    Some(k) => {
                        proof {
                            lemma_position_of(course_views(old_list), id);
                            assert(course_views(old_list).len() == old_list.len());
                        }
                        list.remove(k);
                        removed = true;
                        proof {
                            assert(position_of(before[channel], id) == Some(k as int));
                            assert(unwatch_spec(before, channel, id)[channel] == before[channel].remove(k as int));
                            assert(course_views(list@) =~= course_views(old_list).remove(k as int));
                            let cs = course_views(old_list);
                            assert(ids_distinct(cs));
                            assert forall|i: int, j: int| 0 <= i < j < course_views(list@).len() implies
                                #[trigger] course_views(list@)[i].id != #[trigger] course_views(list@)[j].id by {
                                let ii = if i < k { i } else { i + 1 };
                                let jj = if j < k { j } else { j + 1 };
                                assert(course_views(list@)[i] == cs[ii]);
                                assert(course_views(list@)[j] == cs[jj]);
                                assert(cs[ii].id != cs[jj].id);
                            }
                        }
                    },
                }
                let ghost final_list = list@;
                channels.insert(channel, list);
                assert(channels@[channel]@ == final_list);
                assert(course_views(final_list) =~= unwatch_spec(before, channel, id)[channel]);
            },
        }
        proof {
            assert forall|k: u64| #[trigger] channels@.contains_key(k) implies ids_distinct(
                course_views(channels@[k]@),
            ) by {
                if k != channel {
                    assert(old_channels.contains_key(k));
                }
            }
        }
        std::mem::swap(&mut channels, &mut self.channels);
        proof {
            let after = self@;
            let want = unwatch_spec(before, channel, id);
            assert(after.dom() =~= want.dom());
            assert forall|k: u64| after.contains_key(k) implies after[k] == want[k] by {
                if k != channel {
                    assert(self.channels@[k] == old_channels[k]);
                } else {
                    assert(after[k] =~= want[k]);
                }
            }
            assert(after =~= want);
        }
        removed
    }

    /// How many courses `channel` watches.
    pub fn course_count(&self, channel: u64) -> (res: usize)
        ensures
            res == (if self@.contains_key(channel) { self@[channel].len() } else { 0 }),
    {
        match self.channels.get(&channel) {
            Some(list) => list.len(),
            None => 0,
        }
    }

    /// The snapshot of the `index`-th course that `channel` watches.
    pub fn course(&self, channel: u64, index: usize) -> (res: &MoodleCourseData)
        requires
            self@.contains_key(channel),
            index < self@[channel].len(),
        ensures
            res@ == self@[channel][index as int],
    {
        match self.channels.get(&channel) {
            Some(list) => &list[index],
            None => {
                proof {
                    assert(false);
                }
                &self.channels.get(&channel).unwrap()[index]
            },
        }
    }

    /// Brings the `index`-th course that `channel` watches up to date with
    /// `target`, the result of fetching it again, as `MoodleContext::update`
    /// does, and reports what changed.
    pub fn update_course(
        &mut self,
        ctx: &MoodleContext,
        channel: u64,
        index: usize,
        target: Result<MoodleCourseData, MoodleErr>,
        changes: &Vec<HtmlChange>,
    ) -> (res: Result<Option<String>, MoodleErr>)
        requires
            old(self)@.contains_key(channel),
            index < old(self)@[channel].len(),
        ensures
            final(self)@ == old(self)@.insert(
                channel,
                old(self)@[channel].update(
                    index as int,
                    course_after_update(old(self)@[channel][index as int], fetched_view(target)),
                ),
            ),
            final(self)@ == course_updated(old(self)@, channel, index as int, fetched_view(target)),
            report_view(res) == update_report(old(self)@[channel][index as int], fetched_view(target), changes@),
    {
        proof {
            use_type_invariant(&*self);
        }
        let ghost before = self@;
        let mut channels: HashMap<u64, Vec<MoodleCourseData>> = HashMap::new();
        std::mem::swap(&mut channels, &mut self.channels);
        let ghost old_channels = channels@;
        let mut list = match channels.remove(&channel) {
            Some(l) => l,
            None => {
                proof {
                    assert(false);
                }
                Vec::new()
            },
        };
        let ghost old_list = list@;
        assert(course_views(old_list) == before[channel]);
        let mut course = list.remove(index);
        let res = ctx.update(&mut course, target, changes);
        list.insert(index, course);
        proof {
            let cs = course_views(old_list);
            assert(course_views(list@) =~= cs.update(index as int, course_after_update(cs[index as int], fetched_view(target))));
            assert forall|i: int, j: int| 0 <= i < j < course_views(list@).len() implies
                #[trigger] course_views(list@)[i].id != #[trigger] course_views(list@)[j].id by {
                assert(course_views(list@)[i].id == cs[i].id);
                assert(course_views(list@)[j].id == cs[j].id);
            }
        }
        channels.insert(channel, list);
        proof {
            assert forall|k: u64| #[trigger] channels@.contains_key(k) implies ids_distinct(
                course_views(channels@[k]@),
            ) by {
                if k != channel {
                    assert(old_channels.contains_key(k));
                }
            }
        }
        std::mem::swap(&mut channels, &mut self.channels);
        proof {
            assert(self@ =~= before.insert(
                channel,
                before[channel].update(index as int, course_after_update(before[channel][index as int], fetched_view(target))),
            ));
        }
        res
    }
}

impl Subscriptions {
    /// The channels that watch (or watched) courses, each once, in no
    /// particular order.
    pub fn channels(&self) -> (res: Vec<u64>)
        ensures
            res@.to_set() == self@.dom(),
            res@.no_duplicates(),
    {
        let mut res: Vec<u64> = Vec::new();
        for k in it: self.channels.keys()
            invariant
                res@ == it.seq().take(it.index() as int).unref(),
        {
            res.push(*k);
            assert(res@ =~= it.seq().take(it.index() + 1).unref());
        }
        proof {
            let keys = vstd::std_specs::iter::IteratorSpec::remaining(
                &vstd::std_specs::hash::spec_keys_iter(&self.channels),
            ).unref();
            assert(res@ =~= keys);
            assert(self@.dom() =~= self.channels@.dom());
        }
        res
    }
}

// ---------------------------------------------------------------------------
// What the bot says
// ---------------------------------------------------------------------------
/// One of the configured responses, picked at random.
pub fn pick_response(responses: &Vec<String>) -> (res: &str)
    requires
        responses@.len() > 0,
    ensures
        exists|i: int| 0 <= i < responses@.len() && res@ == #[trigger] responses@[i]@,
{
    let i = random_below(responses.len());
    responses[i].as_str()
}

/// `resp`, then `before`, the decimal `number` and `after`.
fn reply_with_number(resp: &str, before: &str, number: u64, after: &str) -> (res: String)
    ensures
        res@ == resp@ + before@ + decimal(number as nat) + after@,
{
    let mut text = String::from_str(resp);
    text.append(before);
    text.append(string_of(decimal_chars(number).as_slice()).as_str());
    text.append(after);
    text
}

/// The answer to a channel that now watches course `id`.
pub fn watch_reply(resp: &str, id: u32) -> (res: String)
    ensures
        res@ == resp@ + " (watching course "@ + decimal(id as nat) + ")"@,
{
    reply_with_number(resp, " (watching course ", id as u64, ")")
}

/// The answer to a channel that no longer watches course `id`.
pub fn unwatch_reply(resp: &str, id: u32) -> (res: String)
    ensures
        res@ == resp@ + " (no longer watching course "@ + decimal(id as nat) + ")"@,
{
    reply_with_number(resp, " (no longer watching course ", id as u64, ")")
}

/// The answer to a timer of `seconds` seconds.
pub fn timer_reply(resp: &str, seconds: u64) -> (res: String)
    ensures
        res@ == resp@ + " (timer set for "@ + decimal(seconds as nat) + " seconds)"@,
{
    reply_with_number(resp, " (timer set for ", seconds, " seconds)")
}

/// The message when a timer ran out.
pub fn timer_done_reply(resp: &str) -> (res: String)
    ensures
        res@ == resp@ + " (timer done)"@,
{
    let mut text = String::from_str(resp);
    text.append(" (timer done)");
    text
}

/// The answer to setting a group of `members` members.
pub fn group_created_reply(resp: &str, members: usize) -> (res: String)
    ensures
        res@ == resp@ + " (created group with "@ + decimal(members as nat) + " members)"@,
{
    reply_with_number(resp, " (created group with ", members as u64, " members)")
}

/// The announcement of an update to a course: a title, the course's address
/// as link, and a text.
pub struct UpdateNotice {
    pub title: String,
    pub url: String,
    pub description: String,
}

/// The announcement that `course` changed as `diff` says.
pub fn update_notice(course: &MoodleCourseData, diff: &str, resp: &str) -> (res: UpdateNotice)
    ensures
        res.title@ == "Update in course "@ + course@.name,
        res.url@ == course@.url,
        res.description@ == diff@ + "\n"@ + resp@,
{
    let mut title = String::from_str("Update in course ");
    title.append(course.name());
    let url = String::from_str(course.url());
    let mut description = String::from_str(diff);
    description.append("\n");
    description.append(resp);
    UpdateNotice { title, url, description }
}

// ---------------------------------------------------------------------------
// Laws of the watch lists
// ---------------------------------------------------------------------------
/// No channel watches a course twice, whatever channels ask to watch or to
/// stop watching.
pub proof fn lemma_watch_lists_keep_courses_distinct(
    m: Map<u64, Seq<CourseView>>,
    channel: u64,
    c: CourseView,
    id: u32,
)
    requires
        forall|k: u64| #[trigger] m.contains_key(k) ==> ids_distinct(m[k]),
    ensures
        forall|k: u64| #[trigger] watch_spec(m, channel, c).contains_key(k) ==> ids_distinct(watch_spec(m, channel, c)[k]),
        forall|k: u64| #[trigger] unwatch_spec(m, channel, id).contains_key(k) ==> ids_distinct(unwatch_spec(m, channel, id)[k]),
{
    if m.contains_key(channel) {
        lemma_position_of(m[channel], c.id);
        lemma_position_of(m[channel], id);
        let cs = m[channel];
        match position_of(cs, id) {
            Some(i) => {
                let r = cs.remove(i);
                assert forall|a: int, b: int| 0 <= a < b < r.len() implies #[trigger] r[a].id != #[trigger] r[b].id by {
                    let aa = if a < i { a } else { a + 1 };
                    let bb = if b < i { b } else { b + 1 };
                    assert(r[a] == cs[aa]);
                    assert(r[b] == cs[bb]);
                }
            },
            None => {},
        }
    }
}

/// After a channel asks to watch a course, it watches a course with that id;
/// after it asks to stop watching a course, it watches none with that id
/// (given that no course is watched twice). Other channels are not touched.
pub proof fn lemma_watch_unwatch_effect(m: Map<u64, Seq<CourseView>>, channel: u64, c: CourseView, id: u32, other: u64)
    requires
        m.contains_key(channel) ==> ids_distinct(m[channel]),
        other != channel,
    ensures
        watch_spec(m, channel, c).contains_key(channel),
        position_of(watch_spec(m, channel, c)[channel], c.id) is Some,
        unwatch_spec(m, channel, id).contains_key(channel) ==> position_of(unwatch_spec(m, channel, id)[channel], id) is None,
        watch_spec(m, channel, c).contains_key(other) == m.contains_key(other),
        m.contains_key(other) ==> watch_spec(m, channel, c)[other] == m[other],
        unwatch_spec(m, channel, id).contains_key(other) == m.contains_key(other),
        m.contains_key(other) ==> unwatch_spec(m, channel, id)[other] == m[other],
{
    lemma_watch_adds(m, channel, c);
    if m.contains_key(channel) {
        let cs = m[channel];
        lemma_position_of(cs, id);
        match position_of(cs, id) {
            Some(i) => {
                let r = cs.remove(i);
                lemma_position_of(r, id);
                assert forall|k: int| 0 <= k < r.len() implies r[k].id != id by {
                    let kk = if k < i { k } else { k + 1 };
                    assert(r[k] == cs[kk]);
                }
            },
            None => {},
        }
    }
}

/// How a request edits the channel's list. Watching a course the channel
/// does not watch yet appends it at the end of the list (a channel without a
/// list gets one with just that course); watching a course it already
/// watches changes nothing. Stopping to watch removes that course from its
/// place, the others keeping their order; a course the channel does not
/// watch changes nothing. No other channel's list changes.
pub proof fn lemma_watch_list_edits(m: Map<u64, Seq<CourseView>>, channel: u64, c: CourseView, id: u32)
    requires
        m.contains_key(channel) ==> ids_distinct(m[channel]),
    ensures
        (m.contains_key(channel) && exists|k: int| 0 <= k < m[channel].len() && #[trigger] m[channel][k].id == c.id)
            ==> watch_spec(m, channel, c) == m,
        !(m.contains_key(channel) && exists|k: int| 0 <= k < m[channel].len() && #[trigger] m[channel][k].id == c.id)
            ==> watch_spec(m, channel, c) == m.insert(
                channel,
                (if m.contains_key(channel) { m[channel] } else { Seq::<CourseView>::empty() }).push(c),
            ),
        forall|k: int| m.contains_key(channel) && 0 <= k < m[channel].len() && #[trigger] m[channel][k].id == id
            ==> unwatch_spec(m, channel, id) == m.insert(channel, m[channel].remove(k)),
        !(m.contains_key(channel) && exists|k: int| 0 <= k < m[channel].len() && #[trigger] m[channel][k].id == id)
            ==> unwatch_spec(m, channel, id) == m,
{
    if m.contains_key(channel) {
        let cs = m[channel];
        lemma_position_of(cs, c.id);
        lemma_position_of(cs, id);
        match position_of(cs, c.id) {
            Some(i) => {
                assert(cs[i].id == c.id);
            },
            None => {},
        }
        match position_of(cs, id) {
            Some(i) => {
                assert(cs[i].id == id);
                assert forall|k: int| 0 <= k < cs.len() && #[trigger] cs[k].id == id implies k == i by {
                    if k != i {
                        if k < i {
                            assert(cs[k].id != cs[i].id);
                        } else {
                            assert(cs[i].id != cs[k].id);
                        }
                    }
                }
            },
            None => {},
        }
    } else {
        assert(Seq::<CourseView>::empty().push(c) =~= seq![c]);
    }
}

/// Asking twice to watch a course is asking once.
pub proof fn lemma_watch_idempotent(m: Map<u64, Seq<CourseView>>, channel: u64, c: CourseView)
    ensures
        watch_spec(watch_spec(m, channel, c), channel, c) == watch_spec(m, channel, c),
{
    lemma_watch_adds(m, channel, c);
}

proof fn lemma_watch_adds(m: Map<u64, Seq<CourseView>>, channel: u64, c: CourseView)
    ensures
        watch_spec(m, channel, c).contains_key(channel),
        position_of(watch_spec(m, channel, c)[channel], c.id) is Some,
{
    if m.contains_key(channel) {
        let cs = m[channel];
        lemma_position_of(cs, c.id);
        if position_of(cs, c.id) is None {
            lemma_position_of(cs.push(c), c.id);
            assert(cs.push(c)[cs.len() as int] == c);
        }
    } else {
        lemma_position_of(seq![c], c.id);
        assert(seq![c][0] == c);
    }
}

/// A course a channel did not watch, watched and then no longer watched,
/// leaves the channel's list as it was.
pub proof fn lemma_unwatch_undoes_watch(m: Map<u64, Seq<CourseView>>, channel: u64, c: CourseView)
    requires
        m.contains_key(channel),
        position_of(m[channel], c.id) is None,
    ensures
        unwatch_spec(watch_spec(m, channel, c), channel, c.id) == m,
{
    let cs = m[channel];
    lemma_position_of(cs, c.id);
    lemma_position_of(cs.push(c), c.id);
    assert(cs.push(c)[cs.len() as int] == c);
    match position_of(cs.push(c), c.id) {
        Some(i) => {
            if i < cs.len() {
                assert(cs.push(c)[i] == cs[i]);
                assert(cs[i].id != c.id);
            }
            assert(i == cs.len());
            assert(cs.push(c).remove(i) =~= cs);
        },
        None => {},
    }
    assert(m.insert(channel, cs) =~= m);
}

/// The watch lists after the `index`-th course of `channel` was brought up
/// to date with the fetched `target`; nothing changes where there is no such
/// course.
pub open spec fn course_updated(
    m: Map<u64, Seq<CourseView>>,
    channel: u64,
    index: int,
    target: Result<CourseView, MoodleErr>,
) -> Map<u64, Seq<CourseView>> {
    if m.contains_key(channel) && 0 <= index < m[channel].len() {
        m.insert(channel, m[channel].update(index, course_after_update(m[channel][index], target)))
    } else {
        m
    }
}

/// The watch lists after a round of updates, applied in order; each update
/// names a channel, the position of a course in its list, and what fetching
/// the course gave.
pub open spec fn updates_applied(
    m: Map<u64, Seq<CourseView>>,
    updates: Seq<(u64, int, Result<CourseView, MoodleErr>)>,
) -> Map<u64, Seq<CourseView>>
    decreases updates.len(),
{
    if updates.len() == 0 {
        m
    } else {
        updates_applied(course_updated(m, updates[0].0, updates[0].1, updates[0].2), updates.drop_first())
    }
}

/// The two watch lists differ at most in the contents of courses: the same
/// channels watch the same courses in the same order, with the same ids,
/// names and addresses.
pub open spec fn only_contents_differ(a: Map<u64, Seq<CourseView>>, b: Map<u64, Seq<CourseView>>) -> bool {
    &&& a.dom() == b.dom()
    &&& forall|k: u64| #[trigger] a.contains_key(k) ==> a[k].len() == b[k].len()
    &&& forall|k: u64, i: int| a.contains_key(k) && 0 <= i < a[k].len() ==> {
        &&& #[trigger] a[k][i].id == b[k][i].id
        &&& a[k][i].name == b[k][i].name
        &&& a[k][i].url == b[k][i].url
    }
}

/// A round of updates, as the bot runs every few minutes, only changes the
/// contents of courses: no channel or course is added or removed, and no
/// course changes its id, name or address.
pub proof fn lemma_updates_change_only_contents(
    m: Map<u64, Seq<CourseView>>,
    updates: Seq<(u64, int, Result<CourseView, MoodleErr>)>,
)
    ensures
        only_contents_differ(m, updates_applied(m, updates)),
    decreases updates.len(),
{
    if updates.len() == 0 {
        assert(m.dom() =~= m.dom());
    } else {
        let (channel, index, target) = updates[0];
        let m1 = course_updated(m, channel, index, target);
        lemma_updates_change_only_contents(m1, updates.drop_first());
        let m2 = updates_applied(m1, updates.drop_first());
        assert(m.dom() =~= m1.dom());
        assert forall|k: u64| #[trigger] m.contains_key(k) implies m[k].len() == m2[k].len() by {
            assert(m1.contains_key(k));
        }
        assert forall|k: u64, i: int| m.contains_key(k) && 0 <= i < m[k].len() implies {
            &&& #[trigger] m[k][i].id == m2[k][i].id
            &&& m[k][i].name == m2[k][i].name
            &&& m[k][i].url == m2[k][i].url
        } by {
            assert(m1.contains_key(k));
            assert(m1[k].len() == m[k].len());
            assert(m1[k][i].id == m[k][i].id);
            assert(m1[k][i].id == m2[k][i].id);
        }
    }
}

} // verus!
