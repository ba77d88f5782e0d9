use poodle::bot::{
    group_created_reply, parse_command, pick_response, timer_done_reply, timer_reply, unwatch_reply,
    update_notice, watch_reply, Command, Subscriptions,
};
use poodle::groups::{assign_teams, make_teams, team_size, teams_message};
use poodle::moodle::{HtmlChange, MoodleAuthConf, MoodleContext, MoodleCourseData, MoodleErr};
use poodle::text::{chars_of, decimal_chars, parse_u32, parse_u64, split_chars};

fn course(id: u32, content: &str) -> MoodleCourseData {
    MoodleCourseData::new(id, format!("Course {}", id), format!("https://example.com/{}", id), content.to_string())
}

fn ids(c: Option<Command>) -> Option<(String, Vec<u32>)> {
    match c {
        Some(Command::Watch(v)) => Some(("watch".to_string(), v)),
        Some(Command::Unwatch(v)) => Some(("unwatch".to_string(), v)),
        _ => None,
    }
}

#[test]
fn watch_command_keeps_only_numbers() {
    assert_eq!(
        ids(parse_command("<@123> watch 5 abc +7 -1 4294967296", "123")),
        Some(("watch".to_string(), vec![5, 7]))
    );
    assert_eq!(ids(parse_command("<@!123> unwatch 9", "123")), Some(("unwatch".to_string(), vec![9])));
}

#[test]
fn commands_need_the_mention_and_enough_words() {
    assert!(parse_command("<@999> watch 1", "123").is_none());
    assert!(parse_command("hello <@123> watch 1", "123").is_none());
    assert!(parse_command("<@123> watch", "123").is_none());
    assert!(parse_command("<@123>", "123").is_none());
    assert!(parse_command("<@123>  watch 1", "123").is_none());
    assert!(parse_command("<@123> dance 1", "123").is_none());
}

#[test]
fn the_mention_only_has_to_start_the_message() {
    // The second word is the command, even when the mention is glued to it.
    assert_eq!(ids(parse_command("<@123>x 1 2", "123")), None);
    assert!(matches!(parse_command("<@123>x makegroups", "123"), Some(Command::MakeGroups)));
}

#[test]
fn timer_command_takes_one_number() {
    assert!(matches!(parse_command("<@123> timer 30", "123"), Some(Command::Timer(30))));
    assert!(parse_command("<@123> timer x", "123").is_none());
    assert!(parse_command("<@123> timer 1 2", "123").is_none());
    assert!(parse_command("<@123> timer", "123").is_none());
}

#[test]
fn makegroups_commands() {
    assert!(matches!(parse_command("<@123> makegroups", "123"), Some(Command::MakeGroups)));
    match parse_command("<@!123> makegroups ann bob  cy", "123") {
        Some(Command::SetGroup(m)) => assert_eq!(m, vec!["ann", "bob", "", "cy"]),
        _ => panic!("expected a group"),
    }
}

#[test]
fn number_parsing_follows_from_str() {
    assert_eq!(parse_u64(&chars_of("18446744073709551615")), Some(u64::MAX));
    assert_eq!(parse_u64(&chars_of("18446744073709551616")), None);
    assert_eq!(parse_u64(&chars_of("+12")), Some(12));
    assert_eq!(parse_u64(&chars_of("007")), Some(7));
    assert_eq!(parse_u64(&chars_of("")), None);
    assert_eq!(parse_u64(&chars_of("+")), None);
    assert_eq!(parse_u64(&chars_of("-1")), None);
    assert_eq!(parse_u64(&chars_of("1a")), None);
    assert_eq!(parse_u32(&chars_of("4294967295")), Some(u32::MAX));
    assert_eq!(parse_u32(&chars_of("4294967296")), None);
    for s in ["0", "12", "+3", "99999999999999999999", "", "x"] {
        assert_eq!(parse_u64(&chars_of(s)), s.parse::<u64>().ok());
        assert_eq!(parse_u32(&chars_of(s)), s.parse::<u32>().ok());
    }
}

#[test]
fn decimal_and_split() {
    let d: String = decimal_chars(1203).into_iter().collect();
    assert_eq!(d, "1203");
    let d: String = decimal_chars(0).into_iter().collect();
    assert_eq!(d, "0");
    let words: Vec<String> = split_chars(&chars_of("a  b"), ' ').into_iter().map(|w| w.into_iter().collect()).collect();
    assert_eq!(words, vec!["a", "", "b"]);
    let words = split_chars(&chars_of(""), ' ');
    assert_eq!(words.len(), 1);
}

#[test]
fn replies() {
    assert_eq!(watch_reply("Ok", 12), "Ok (watching course 12)");
    assert_eq!(unwatch_reply("Ok", 12), "Ok (no longer watching course 12)");
    assert_eq!(timer_reply("Ok", 90), "Ok (timer set for 90 seconds)");
    assert_eq!(timer_done_reply("Ok"), "Ok (timer done)");
    assert_eq!(group_created_reply("Ok", 3), "Ok (created group with 3 members)");
    let c = course(4, "");
    let n = update_notice(&c, "New \"Datei\" uploaded: \"A\"\n", "Yay");
    assert_eq!(n.title, "Update in course Course 4");
    assert_eq!(n.url, "https://example.com/4");
    assert_eq!(n.description, "New \"Datei\" uploaded: \"A\"\n\nYay");
}

#[test]
fn pick_response_picks_one_of_them() {
    let responses = vec!["a".to_string(), "b".to_string(), "c".to_string()];
    for _ in 0..20 {
        let r = pick_response(&responses);
        assert!(responses.iter().any(|x| x == r));
    }
}

#[test]
fn watch_and_unwatch() {
    let mut subs = Subscriptions::new();
    assert!(subs.watch(1, course(10, "a")));
    assert!(subs.watch(1, course(11, "b")));
    assert!(!subs.watch(1, course(10, "other")));
    assert!(subs.watch(2, course(10, "c")));
    assert_eq!(subs.course_count(1), 2);
    assert_eq!(subs.course_count(2), 1);
    assert_eq!(subs.course_count(3), 0);
    assert_eq!(subs.course(1, 0).content(), "a");
    let mut channels = subs.channels();
    channels.sort();
    assert_eq!(channels, vec![1, 2]);
    assert!(subs.unwatch(1, 10));
    assert!(!subs.unwatch(1, 10));
    assert!(!subs.unwatch(3, 10));
    assert_eq!(subs.course_count(1), 1);
    assert_eq!(subs.course(1, 0).id(), 11);
    assert_eq!(subs.course_count(2), 1);
}

#[test]
fn update_course_in_a_watch_list() {
    let ctx = MoodleContext::new(MoodleAuthConf::ShibbolethUser("u".to_string(), "p".to_string()));
    let mut subs = Subscriptions::new();
    subs.watch(1, course(10, "a"));
    subs.watch(1, course(11, "b"));
    let r = subs.update_course(&ctx, 1, 1, Ok(course(11, "b2")), &vec![HtmlChange::NodeText]);
    assert_eq!(r, Ok(None));
    assert_eq!(subs.course(1, 1).content(), "b2");
    assert_eq!(subs.course(1, 0).content(), "a");
    let r = subs.update_course(&ctx, 1, 0, Err(MoodleErr::Login), &vec![]);
    assert_eq!(r, Err(MoodleErr::Login));
    assert_eq!(subs.course(1, 0).content(), "a");
}

#[test]
fn team_sizes_are_floor_log2_of_twice_the_group() {
    let expected = |n: usize| -> usize {
        if n == 0 { 0 } else { ((n as f32) * 2.0).log2().floor() as usize }
    };
    for n in 0..2000usize {
        assert_eq!(team_size(n), expected(n), "n = {}", n);
    }
    assert_eq!(team_size(1), 1);
    assert_eq!(team_size(7), 3);
    assert_eq!(team_size(8), 4);
}

#[test]
fn assign_teams_deals_in_turn() {
    let members: Vec<String> = ["a", "b", "c", "d", "e", "f", "g", "h"].iter().map(|s| s.to_string()).collect();
    let draws = vec![0usize; 8];
    let teams = assign_teams(members, &draws);
    assert_eq!(teams, vec![vec!["a", "c", "e", "g"], vec!["b", "d", "f", "h"]]);
    assert_eq!(teams_message(&teams), "Group 1: a c e g \nGroup 2: b d f h \n");
    let members: Vec<u32> = vec![1, 2, 3];
    let teams = assign_teams(members, &vec![2, 1, 0]);
    assert_eq!(teams, vec![vec![3, 2, 1]]);
}

#[test]
fn make_teams_uses_every_member_once() {
    let members: Vec<u32> = (0..7).collect();
    let teams = make_teams(members);
    assert_eq!(teams.len(), 2);
    let mut sizes: Vec<usize> = teams.iter().map(|t| t.len()).collect();
    sizes.sort();
    assert_eq!(sizes, vec![3, 4]);
    let mut all: Vec<u32> = teams.into_iter().flatten().collect();
    all.sort();
    assert_eq!(all, (0..7).collect::<Vec<u32>>());
}
