//! What a log line says: its display form, the events it reports, and the
//! tally of shots and kills that those events keep.

use vstd::prelude::*;
use crate::text::{
    chars_of, string_of, replace_chars, replace_all, find_chars, find, contains, lemma_find,
    copy_range, trim_chars, trim, occurs_at, opt_view,
};

verus! {

/// `s` with the HTML entities `&quot;`, `&lt;` and `&gt;` turned back into the
/// characters they stand for, in that order.
pub open spec fn unescape_entities(s: Seq<char>) -> Seq<char> {
    replace_all(replace_all(replace_all(s, "&quot;"@, "\""@), "&lt;"@, "<"@), "&gt;"@, ">"@)
}

/// The display form of `line`: its unescaped text without the first 20
/// characters (the timestamp) when it has at least 20.
pub open spec fn formatted(line: Seq<char>) -> Seq<char> {
    let u = unescape_entities(line);
    if u.len() >= 20 {
        u.skip(20)
    } else {
        u
    }
}

/// The characters of the unescaped text of `line`.
fn unescaped(line: &str) -> (r: Vec<char>)
    ensures
        r@ == unescape_entities(line@),
{
    proof {
        reveal_strlit("&quot;");
        reveal_strlit("&lt;");
        reveal_strlit("&gt;");
    }
    let chars = chars_of(line);
    let a = replace_chars(chars.as_slice(), chars_of("&quot;").as_slice(), chars_of("\"").as_slice());
    let b = replace_chars(a.as_slice(), chars_of("&lt;").as_slice(), chars_of("<").as_slice());
    replace_chars(b.as_slice(), chars_of("&gt;").as_slice(), chars_of(">").as_slice())
}

/// The display form of a log line: the entities `&quot;`, `&lt;`, `&gt;`
/// unescaped, and the leading 20 characters (the timestamp) cut off when
/// there are at least 20.
pub fn formatstring(line: &str) -> (res: String)
    ensures
        res@ == formatted(line@),
{
    let u = unescaped(line);
    let n = u.len();
    if n >= 20 {
        let tail = copy_range(u.as_slice(), 20, n);
        assert(tail@ =~= u@.skip(20));
        string_of(tail.as_slice())
    } else {
        string_of(u.as_slice())
    }
}

/// The regular expression that finds a PED amount in a loot line: a decimal
/// number with a fractional part, then optional whitespace, then `PED`.
pub const PED_AMOUNT_PATTERN: &'static str = r"(\d+\.\d+)\s*PED";

/// What the `regex` crate finds as capture group 1 of the leftmost-first match
/// of the regular expression `pattern` in `text` (`None` when `pattern` does not
/// compile, when it does not match, or when group 1 takes no part in the match).
pub uninterp spec fn regex_group_one(pattern: Seq<char>, text: Seq<char>) -> Option<Seq<char>>;

/// Compiles `pattern` with `regex::Regex::new` and returns the text of capture
/// group 1 of `Regex::captures(text)`. Trusted: the result is claimed to be
/// `regex_group_one(pattern, text)`, a function of the two strings alone;
/// nothing about how the regex crate matches is stated or proved here.
#[verifier::external_body]
fn capture_group_one(pattern: &str, text: &str) -> (r: Option<String>)
    ensures
        opt_view(r) == regex_group_one(pattern@, text@),
{
    match regex::Regex::new(pattern) {
        Ok(re) => match re.captures(text) {
            Some(caps) => match caps.get(1) {
                Some(m) => Some(m.as_str().to_string()),
                None => None,
            },
            None => None,
        },
        Err(_) => None,
    }
}

/// The damage figure of a combat line: the text after the first
/// `You inflicted ` up to the first `points` after it, trimmed.
pub open spec fn damage_text_of(line: Seq<char>) -> Option<Seq<char>> {
    match find(line, "You inflicted "@) {
        Some(i) => {
            let after = line.skip(i + "You inflicted "@.len());
            match find(after, "points"@) {
                Some(j) => Some(trim(after.take(j))),
                None => None,
            }
        },
        None => None,
    }
}

/// What a log line reports, before any number in it is read.
pub struct LineScan {
    /// The line names the player's avatar.
    pub mentions_avatar: bool,
    /// A `[System]` line that says `You inflicted`.
    pub damage_event: bool,
    /// The damage figure of a damage line, when the line has one.
    pub damage_text: Option<String>,
    /// The line says `You received`.
    pub loot_event: bool,
    /// The PED amount of a loot line, when the line has one.
    pub loot_text: Option<String>,
    /// A `[Global]` or `[Globals]` line.
    pub global_event: bool,
}

/// The scan of `line` for the avatar `avatar`, given what the PED amount
/// pattern captured in the line.
pub open spec fn scan_holds(
    scan: LineScan,
    line: Seq<char>,
    avatar: Seq<char>,
    captured: Option<Seq<char>>,
) -> bool {
    &&& scan.mentions_avatar == contains(line, avatar)
    &&& scan.damage_event == (contains(line, "[System]"@) && contains(line, "You inflicted"@))
    &&& opt_view(scan.damage_text) == (if scan.damage_event {
        damage_text_of(line)
    } else {
        None
    })
    &&& scan.loot_event == contains(line, "You received"@)
    &&& opt_view(scan.loot_text) == (if scan.loot_event {
        captured
    } else {
        None
    })
    &&& scan.global_event == (contains(line, "[Global]"@) || contains(line, "[Globals]"@))
}

/// Whether `pat` occurs in `s`.
fn contains_chars(s: &[char], pat: &[char]) -> (b: bool)
    ensures
        b == contains(s@, pat@),
{
    proof {
        lemma_find(s@, pat@);
    }
    find_chars(s, pat).is_some()
}

/// The damage figure of `line`, as `damage_text_of` gives it.
fn damage_text(line: &[char]) -> (r: Option<String>)
    ensures
        opt_view(r) == damage_text_of(line@),
{
    let n = line.len();
    let marker = chars_of("You inflicted ");
    match find_chars(line, marker.as_slice()) {
        Some(i) => {
            proof {
                lemma_find(line@, marker@);
                assert(occurs_at(line@, marker@, i as int));
            }
            let start = i + marker.len();
            let after = copy_range(line, start, n);
            assert(after@ =~= line@.skip(i + "You inflicted "@.len()));
            let points = chars_of("points");
            match find_chars(after.as_slice(), points.as_slice()) {
                Some(j) => {
                    proof {
                        lemma_find(after@, points@);
                    }
                    let between = copy_range(after.as_slice(), 0, j);
                    assert(between@ =~= after@.take(j as int));
                    let t = trim_chars(between.as_slice());
                    Some(string_of(t.as_slice()))
                },
                None => None,
            }
        },
        None => None,
    }
}

/// Scans `line` for the events that matter, with `captured` standing for what
/// the PED amount pattern captures in it.
pub fn scan_line_with_capture(line: &str, avatarname: &str, captured: Option<String>) -> (scan: LineScan)
    ensures
        scan_holds(scan, line@, avatarname@, opt_view(captured)),
{
    let chars = chars_of(line);
    let mentions_avatar = contains_chars(chars.as_slice(), chars_of(avatarname).as_slice());
    let damage_event = contains_chars(chars.as_slice(), chars_of("[System]").as_slice())
        && contains_chars(chars.as_slice(), chars_of("You inflicted").as_slice());
    let damage_text = if damage_event {
        damage_text(chars.as_slice())
    } else {
        None
    };
    let loot_event = contains_chars(chars.as_slice(), chars_of("You received").as_slice());
    let loot_text = if loot_event {
        captured
    } else {
        None
    };
    let global_event = contains_chars(chars.as_slice(), chars_of("[Global]").as_slice())
        || contains_chars(chars.as_slice(), chars_of("[Globals]").as_slice());
    LineScan { mentions_avatar, damage_event, damage_text, loot_event, loot_text, global_event }
}

/// Scans `line` for the events that matter to the player `avatarname`; the
/// PED amount of a loot line is what `PED_AMOUNT_PATTERN` captures in it.
pub fn scan_line(line: &str, avatarname: &str) -> (scan: LineScan)
    ensures
        scan_holds(scan, line@, avatarname@, regex_group_one(PED_AMOUNT_PATTERN@, line@)),
{
    let chars = chars_of(line);
    let captured = if contains_chars(chars.as_slice(), chars_of("You received").as_slice()) {
        capture_group_one(PED_AMOUNT_PATTERN, line)
    } else {
        None
    };
    scan_line_with_capture(line, avatarname, captured)
}


/// `pat` appears in `line` as a whole, at some position.
pub open spec fn appears_in(line: Seq<char>, pat: Seq<char>) -> bool {
    exists|i: int| 0 <= i && i + pat.len() <= line.len() && #[trigger] line.subrange(i, i + pat.len()) == pat
}

/// `pat` appears in `line` at `i`, and nowhere before `i`.
pub open spec fn first_at(line: Seq<char>, pat: Seq<char>, i: int) -> bool {
    &&& 0 <= i && i + pat.len() <= line.len()
    &&& line.subrange(i, i + pat.len()) == pat
    &&& forall|j: int| 0 <= j < i ==> #[trigger] line.subrange(j, j + pat.len()) != pat
}

/// What a scan reports, said of the line itself: the avatar is mentioned
/// exactly when the whole avatar name appears in the line; a damage event is
/// a line with both `[System]` and `You inflicted`; a loot event a line with
/// `You received`; a global event a line with `[Global]` or `[Globals]`; and
/// events that do not happen carry no text.
pub proof fn lemma_scan_reports(scan: LineScan, line: Seq<char>, avatar: Seq<char>, captured: Option<Seq<char>>)
    requires
        scan_holds(scan, line, avatar, captured),
    ensures
        scan.mentions_avatar <==> appears_in(line, avatar),
        scan.damage_event <==> appears_in(line, "[System]"@) && appears_in(line, "You inflicted"@),
        scan.loot_event <==> appears_in(line, "You received"@),
        scan.global_event <==> appears_in(line, "[Global]"@) || appears_in(line, "[Globals]"@),
        !scan.damage_event ==> scan.damage_text is None,
        !scan.loot_event ==> scan.loot_text is None,
        scan.loot_event ==> opt_view(scan.loot_text) == captured,
{
    assert forall|pat: Seq<char>| contains(line, pat) <==> appears_in(line, pat) by {
        if contains(line, pat) {
            let i = choose|i: int| occurs_at(line, pat, i);
            assert(line.subrange(i, i + pat.len()) == pat);
        }
        if appears_in(line, pat) {
            let i = choose|i: int| 0 <= i && i + pat.len() <= line.len() && #[trigger] line.subrange(i, i + pat.len()) == pat;
            assert(occurs_at(line, pat, i));
        }
    }
}

/// The damage figure of a line: when there is one, it is the text between
/// the first `You inflicted ` and the first `points` after it, trimmed; there
/// is none exactly when either of the two is missing.
pub proof fn lemma_damage_figure(line: Seq<char>)
    ensures
        damage_text_of(line) matches Some(d) ==> exists|i: int, j: int|
            #[trigger] first_at(line, "You inflicted "@, i) && #[trigger] first_at(
                line.skip(i + "You inflicted "@.len()),
                "points"@,
                j,
            ) && d == trim(line.skip(i + "You inflicted "@.len()).take(j)),
        damage_text_of(line) is None ==> !appears_in(line, "You inflicted "@) || forall|i: int|
            first_at(line, "You inflicted "@, i) ==> !appears_in(
                line.skip(i + "You inflicted "@.len()),
                "points"@,
            ),
{
    let m = "You inflicted "@;
    let pts = "points"@;
    lemma_find(line, m);
    match find(line, m) {
        Some(i) => {
            assert(line.subrange(i, i + m.len()) == m);
            assert forall|j: int| 0 <= j < i implies #[trigger] line.subrange(j, j + m.len()) != m by {
                assert(!occurs_at(line, m, j));
            }
            let after = line.skip(i + m.len());
            lemma_find(after, pts);
            match find(after, pts) {
                Some(j) => {
                    assert(after.subrange(j, j + pts.len()) == pts);
                    assert forall|q: int| 0 <= q < j implies #[trigger] after.subrange(q, q + pts.len()) != pts by {
                        assert(!occurs_at(after, pts, q));
                    }
                    assert(first_at(after, pts, j));
                    assert(first_at(line, m, i));
                },
                None => {
                    assert forall|i2: int| first_at(line, m, i2) implies !appears_in(line.skip(i2 + m.len()), pts) by {
                        if i2 < i {
                            assert(line.subrange(i2, i2 + m.len()) != m);
                        } else if i2 > i {
                            assert(line.subrange(i, i + m.len()) != m);
                        }
                        if appears_in(after, pts) {
                            let q = choose|q: int| 0 <= q && q + pts.len() <= after.len() && #[trigger] after.subrange(q, q + pts.len()) == pts;
                            assert(occurs_at(after, pts, q));
                        }
                    }
                },
            }
        },
        None => {
            if appears_in(line, m) {
                let q = choose|q: int| 0 <= q && q + m.len() <= line.len() && #[trigger] line.subrange(q, q + m.len()) == m;
                assert(occurs_at(line, m, q));
            }
        },
    }
}


/// The display form drops the first 20 characters of the unescaped text and
/// keeps all the rest; a text shorter than that is kept whole.
pub proof fn lemma_display_form(line: Seq<char>)
    ensures
        unescape_entities(line).len() >= 20 ==> unescape_entities(line) == unescape_entities(line).take(20)
            + formatted(line) && formatted(line).len() == unescape_entities(line).len() - 20,
        unescape_entities(line).len() < 20 ==> formatted(line) == unescape_entities(line),
{
    let u = unescape_entities(line);
    if u.len() >= 20 {
        assert(u =~= u.take(20) + u.skip(20));
    }
}

/// Text in which the pattern does not appear is left as it is.
pub proof fn lemma_replace_absent(s: Seq<char>, pat: Seq<char>, rep: Seq<char>)
    requires
        pat.len() > 0,
        !appears_in(s, pat),
    ensures
        replace_all(s, pat, rep) == s,
    decreases s.len(),
{
    if s.len() > 0 {
        if occurs_at(s, pat, 0) {
            assert(s.subrange(0, pat.len() as int) == pat);
        }
        let rest = s.drop_first();
        if appears_in(rest, pat) {
            let i = choose|i: int| 0 <= i && i + pat.len() <= rest.len() && #[trigger] rest.subrange(i, i + pat.len()) == pat;
            assert(s.subrange(i + 1, i + 1 + pat.len()) =~= rest.subrange(i, i + pat.len()));
        }
        lemma_replace_absent(rest, pat, rep);
        assert(s =~= seq![s[0]] + rest);
    }
}

/// Each occurrence of the pattern at the front becomes the replacement, and
/// a first character that does not start the pattern is kept.
pub proof fn lemma_replace_front(s: Seq<char>, pat: Seq<char>, rep: Seq<char>)
    requires
        pat.len() > 0,
        s.len() > 0,
    ensures
        s.len() >= pat.len() && s.take(pat.len() as int) == pat ==> replace_all(s, pat, rep) == rep
            + replace_all(s.skip(pat.len() as int), pat, rep),
        !(s.len() >= pat.len() && s.take(pat.len() as int) == pat) ==> replace_all(s, pat, rep) == seq![s[0]]
            + replace_all(s.drop_first(), pat, rep),
{
    if s.len() >= pat.len() {
        assert(s.take(pat.len() as int) =~= s.subrange(0, pat.len() as int));
    }
}

} // verus!
