use logwatch::config::{block_entries, config_entries, parse_i32, Config};
use logwatch::lines::{last_nonblank_line, text_lines_chars};
use logwatch::patterns::{formatstring, scan_line, scan_line_with_capture};
use logwatch::tailer::{split_complete_lines, TailCursor};
use logwatch::tally::KillTally;
use logwatch::text::{chars_of, find_chars, replace_chars, string_of, trim_chars};

fn chars(s: &str) -> Vec<char> {
    s.chars().collect()
}

fn bytes_lines(v: &[Vec<u8>]) -> Vec<String> {
    v.iter().map(|l| String::from_utf8(l.clone()).unwrap()).collect()
}

#[test]
fn formatstring_cuts_the_timestamp() {
    let line = "2026-08-07 15:26:00 [System] [] Critical hit - Additional damage!";
    assert_eq!(formatstring(line), "[System] [] Critical hit - Additional damage!");
}

#[test]
fn formatstring_unescapes_entities() {
    assert_eq!(formatstring("&quot;hi&quot; &lt;b&gt;"), "\"hi\" <b>");
    let line = "2026-08-07 15:26:00 [Rookie] [Deux] &quot;hello&quot; &lt;3";
    assert_eq!(formatstring(line), "[Rookie] [Deux] \"hello\" <3");
}

#[test]
fn formatstring_short_line_unchanged() {
    assert_eq!(formatstring("short line"), "short line");
    assert_eq!(formatstring(""), "");
}

#[test]
fn formatstring_exactly_twenty_characters_gives_empty() {
    assert_eq!(formatstring("01234567890123456789"), "");
    assert_eq!(formatstring("012345678901234567890"), "0");
}

#[test]
fn formatstring_counts_characters_not_bytes() {
    // "é" takes two bytes but is one character.
    assert_eq!(formatstring("é12345678901234567890"), "0");
    assert_eq!(formatstring(&format!("{}abc", "é".repeat(20))), "abc");
}

#[test]
fn formatstring_unescaping_happens_before_the_cut() {
    // 26 bytes before unescaping, 21 after: one byte is left.
    assert_eq!(formatstring("&quot;2345678901234567890X"), "X");
}

#[test]
fn formatstring_never_splits_a_character() {
    assert_eq!(formatstring("0123456789012345678é tail"), " tail");
    assert_eq!(formatstring("2026-08-07 15:26:00 [Global] x"), "[Global] x");
}

#[test]
fn scan_damage_line() {
    let line = "2026-08-07 15:26:00 [System] [] Critical hit - Additional damage! You inflicted 281.9 points of damage";
    let scan = scan_line(line, "Deux Pelleman Ex");
    assert!(!scan.mentions_avatar);
    assert!(scan.damage_event);
    assert_eq!(scan.damage_text, Some("281.9".to_string()));
    assert!(!scan.loot_event);
    assert_eq!(scan.loot_text, None);
    assert!(!scan.global_event);
}

#[test]
fn scan_damage_line_without_figure() {
    // "You inflicted" without a following space: the event, but no figure.
    let scan = scan_line("[System] [] You inflicted", "x");
    assert!(scan.damage_event);
    assert_eq!(scan.damage_text, None);
    // No "points" after the marker.
    let scan = scan_line("[System] [] You inflicted 12 damage", "x");
    assert!(scan.damage_event);
    assert_eq!(scan.damage_text, None);
}

#[test]
fn scan_damage_needs_system_tag() {
    let scan = scan_line("[Local] You inflicted 5 points", "x");
    assert!(!scan.damage_event);
    assert_eq!(scan.damage_text, None);
}

#[test]
fn scan_loot_line_reads_the_ped_amount() {
    let line = "2026-08-07 15:25:10 [System] [] You received Enhanced Adaptive Fuse x (6) Value: 7.02 PED";
    let scan = scan_line(line, "Deux Pelleman Ex");
    assert!(scan.loot_event);
    assert_eq!(scan.loot_text, Some("7.02".to_string()));
    assert!(!scan.damage_event);
}

#[test]
fn scan_loot_line_without_amount() {
    let scan = scan_line("[System] [] You received Shrapnel x (12) Value: 12 PED", "x");
    assert!(scan.loot_event);
    assert_eq!(scan.loot_text, None);
}

#[test]
fn scan_loot_amount_takes_the_first_match() {
    let scan = scan_line("You received 1.5PED and 2.25 PED", "x");
    assert_eq!(scan.loot_text, Some("1.5".to_string()));
}

#[test]
fn scan_global_and_avatar() {
    let line = "[Globals] [] Deux Pelleman Ex killed a creature (Araneatrox Prowler) with a value of 120 PED!";
    let scan = scan_line(line, "Deux Pelleman Ex");
    assert!(scan.mentions_avatar);
    assert!(scan.global_event);
    assert_eq!(
        formatstring("2026-08-07 15:30:00 [Globals] [] Deux Pelleman Ex killed a creature"),
        "[Globals] [] Deux Pelleman Ex killed a creature"
    );
    let scan = scan_line("2026-08-07 15:26:00 [Global] [] someone", "Deux Pelleman Ex");
    assert!(scan.global_event);
    assert!(!scan.mentions_avatar);
    // An empty avatar name occurs in every line.
    assert!(scan_line("anything", "").mentions_avatar);
}

#[test]
fn scan_with_given_capture_uses_it_only_for_loot_lines() {
    let scan = scan_line_with_capture("You received junk", "x", Some("3.5".to_string()));
    assert_eq!(scan.loot_text, Some("3.5".to_string()));
    let scan = scan_line_with_capture("nothing here", "x", Some("3.5".to_string()));
    assert_eq!(scan.loot_text, None);
}

#[test]
fn tally_counts_a_kill_after_shots() {
    let mut t = KillTally::new();
    t.record_hit();
    t.record_hit();
    assert_eq!(t.totalshots(), 2);
    assert_eq!(t.lastmobshots(), 2);
    assert_eq!(t.record_loot(), Some(3));
    assert_eq!(t.numberofkills(), 1);
    assert_eq!(t.lastmobshots(), 0);
    assert_eq!(t.totalshots(), 2);
}

#[test]
fn tally_loot_without_shots_is_no_kill() {
    let mut t = KillTally::default();
    assert_eq!(t.record_loot(), None);
    assert_eq!(t.numberofkills(), 0);
    t.record_hit();
    assert_eq!(t.record_loot(), Some(2));
    // A second loot line for the same mob does not count another kill.
    assert_eq!(t.record_loot(), None);
    assert_eq!(t.numberofkills(), 1);
}

#[test]
fn tally_kills_never_exceed_shots() {
    let mut t = KillTally::new();
    for round in 0..10 {
        if round % 3 != 2 {
            t.record_hit();
        }
        t.record_loot();
        assert!(t.numberofkills() + t.lastmobshots() <= t.totalshots());
    }
}

#[test]
fn parse_i32_cases() {
    assert_eq!(parse_i32(&chars("42")), Some(42));
    assert_eq!(parse_i32(&chars("+7")), Some(7));
    assert_eq!(parse_i32(&chars("-2147483648")), Some(i32::MIN));
    assert_eq!(parse_i32(&chars("2147483647")), Some(i32::MAX));
    assert_eq!(parse_i32(&chars("2147483648")), None);
    assert_eq!(parse_i32(&chars("99999999999999999999")), None);
    assert_eq!(parse_i32(&chars("")), None);
    assert_eq!(parse_i32(&chars("-")), None);
    assert_eq!(parse_i32(&chars("12a")), None);
    assert_eq!(parse_i32(&chars(" 1")), None);
    assert_eq!(parse_i32(&chars("007")), Some(7));
}

#[test]
fn config_parse_reads_known_keys() {
    let text = "# comment\n; other comment\n\ntarget_file = \"/tmp/chat.log\"\r\nfifo_pipe=/tmp/pipe\nblockentries = #trade, Rookie\nammoburn = 1234\nusecost=0.5\navatarname = Deux Pelleman Ex\nunknown = 1\nno equals sign\n";
    let c = Config::parse(text);
    assert_eq!(c.target_file, "/tmp/chat.log");
    assert_eq!(c.fifo_pipe, "/tmp/pipe");
    assert_eq!(c.blockentries, "#trade, Rookie");
    assert_eq!(c.ammoburn, 1234);
    assert_eq!(c.usecost, "0.5");
    assert_eq!(c.avatarname, "Deux Pelleman Ex");
}

#[test]
fn config_later_entry_wins() {
    let c = Config::parse("ammoburn = 5\navatarname=A\nammoburn=7\navatarname = B");
    assert_eq!(c.ammoburn, 7);
    assert_eq!(c.avatarname, "B");
}

#[test]
fn config_bad_number_gives_zero() {
    let c = Config::parse("ammoburn = 5\nammoburn = lots\n");
    assert_eq!(c.ammoburn, 0);
}

#[test]
fn config_empty_text_gives_defaults() {
    let c = Config::parse("");
    assert_eq!(c.target_file, "");
    assert_eq!(c.ammoburn, 0);
    assert_eq!(c.usecost, "");
}

#[test]
fn config_value_cleaning() {
    let e = config_entries("  key  =  \"quoted value\"  \nk2=\"\"\"x\"\"\nk3 = a=b\n=v\n");
    assert_eq!(
        e,
        vec![
            ("key".to_string(), "quoted value".to_string()),
            ("k2".to_string(), "x".to_string()),
            ("k3".to_string(), "a=b".to_string()),
            ("".to_string(), "v".to_string()),
        ]
    );
}

#[test]
fn config_unknown_key_changes_nothing() {
    let a = Config::parse("avatarname = A\n");
    let b = Config::parse("avatarname = A\nAvatarName = B\n");
    assert_eq!(a.avatarname, b.avatarname);
}

#[test]
fn config_text_concatenation() {
    let a = "ammoburn = 1\n";
    let b = "ammoburn = 2\n# done\n";
    let mut whole = config_entries(a);
    whole.extend(config_entries(b));
    assert_eq!(config_entries(&format!("{}{}", a, b)), whole);
}

#[test]
fn blockentries_split_trim_filter() {
    let c = Config::parse("blockentries = #calytrade, #trade , ,Rookie,,");
    assert_eq!(
        c.blockentries_vec(),
        vec!["#calytrade".to_string(), "#trade".to_string(), "Rookie".to_string()]
    );
    assert_eq!(block_entries(""), Vec::<String>::new());
    assert_eq!(block_entries(" , \t,"), Vec::<String>::new());
    assert_eq!(block_entries("one"), vec!["one".to_string()]);
}

#[test]
fn blockentries_are_clean() {
    for e in block_entries("  a b , \u{3000}c\u{a0},d,,  ") {
        assert!(!e.is_empty());
        assert_eq!(e.trim(), e);
        assert!(!e.contains(','));
    }
}

#[test]
fn split_complete_lines_keeps_unfinished_line() {
    let r = split_complete_lines(b"first\r\nsecond\nthird");
    assert_eq!(bytes_lines(&r.lines), vec!["first", "second"]);
    assert_eq!(r.consumed, 14);
    let r = split_complete_lines(b"no newline yet");
    assert!(r.lines.is_empty());
    assert_eq!(r.consumed, 0);
    let r = split_complete_lines(b"\n\r\n");
    assert_eq!(bytes_lines(&r.lines), vec!["", ""]);
    assert_eq!(r.consumed, 3);
    let r = split_complete_lines(b"a\r\r\n");
    assert_eq!(bytes_lines(&r.lines), vec!["a\r"]);
}

#[test]
fn cursor_start_read_decisions() {
    let mut c = TailCursor::at(100);
    assert_eq!(c.start_read(100), None);
    assert_eq!(c.offset(), 100);
    assert_eq!(c.start_read(150), Some(100));
    assert_eq!(c.offset(), 100);
    assert_eq!(c.start_read(40), Some(0));
    assert_eq!(c.offset(), 0);
}

#[test]
fn cursor_take_lines_advances_past_complete_lines() {
    let mut c = TailCursor::at(10);
    let lines = c.take_lines(b"one\ntwo\r\nthr");
    assert_eq!(bytes_lines(&lines), vec!["one", "two"]);
    assert_eq!(c.offset(), 19);
}

#[test]
fn reading_in_two_steps_equals_reading_once() {
    let whole: &[u8] = b"alpha\nbeta\r\ngam";
    let more: &[u8] = b"ma\ndelta\n";
    let first = split_complete_lines(whole);
    let mut rest = whole[first.consumed..].to_vec();
    rest.extend_from_slice(more);
    let second = split_complete_lines(&rest);
    let mut all = whole.to_vec();
    all.extend_from_slice(more);
    let once = split_complete_lines(&all);
    let mut two_steps = bytes_lines(&first.lines);
    two_steps.extend(bytes_lines(&second.lines));
    assert_eq!(two_steps, bytes_lines(&once.lines));
    assert_eq!(first.consumed + second.consumed, once.consumed);
}

#[test]
fn last_nonblank_line_cases() {
    assert_eq!(last_nonblank_line("a\nb\n  \n\t\n"), Some("b".to_string()));
    assert_eq!(last_nonblank_line(""), None);
    assert_eq!(last_nonblank_line(" \n \r\n"), None);
    assert_eq!(last_nonblank_line("x\r\n"), Some("x".to_string()));
    assert_eq!(last_nonblank_line("x\ny\r"), Some("y\r".to_string()));
}

#[test]
fn text_lines_like_bufread_lines() {
    let ls = text_lines_chars(&chars("a\r\nb\n\nc"));
    let ls: Vec<String> = ls.iter().map(|l| l.iter().collect()).collect();
    assert_eq!(ls, vec!["a", "b", "", "c"]);
    assert!(text_lines_chars(&chars("")).is_empty());
    assert_eq!(text_lines_chars(&chars("x\n")).len(), 1);
}

#[test]
fn trim_uses_unicode_whitespace() {
    let t = trim_chars(&chars("\u{3000} abc \u{a0}\u{2009}"));
    assert_eq!(string_of(&t), "abc");
    assert_eq!(string_of(&trim_chars(&chars("\u{200b}x"))), "\u{200b}x");
}

#[test]
fn find_and_replace() {
    assert_eq!(find_chars(&chars("abcabc"), &chars("ca")), Some(2));
    assert_eq!(find_chars(&chars("abc"), &chars("x")), None);
    assert_eq!(find_chars(&chars("abc"), &chars("")), Some(0));
    let r = replace_chars(&chars("aaa"), &chars("aa"), &chars("b"));
    assert_eq!(string_of(&r), "ba");
    assert_eq!(string_of(&chars_of("héllo")), "héllo");
}
