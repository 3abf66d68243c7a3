//! The watcher's configuration: `key = value` lines read from an INI-style
//! text, and the list of blocked entries held in one of its values.

use vstd::prelude::*;
use crate::text::{
    chars_of, string_of, copy_range, trim_chars, trim, strip_char, strip_end_char,
    strip_char_chars, strip_end_char_chars, find_chars, find, lemma_find, occurs_at, is_white_space,
    views, lemma_trim,
};
use crate::lines::{
    line_len, text_lines, text_lines_chars, next_index_of, lemma_line_len, lemma_text_lines_append,
};

verus! {

/// The settings of the watcher. `usecost` holds the text of the setting as
/// it was written; the number it stands for is read where it is used.
pub struct Config {
    pub target_file: String,
    pub fifo_pipe: String,
    pub blockentries: String,
    pub ammoburn: i32,
    pub usecost: String,
    pub avatarname: String,
}

/// The contents of a `Config`.
pub struct ConfigModel {
    pub target_file: Seq<char>,
    pub fifo_pipe: Seq<char>,
    pub blockentries: Seq<char>,
    pub ammoburn: i32,
    pub usecost: Seq<char>,
    pub avatarname: Seq<char>,
}

impl View for Config {
    type V = ConfigModel;

    open spec fn view(&self) -> ConfigModel {
        ConfigModel {
            target_file: self.target_file@,
            fifo_pipe: self.fifo_pipe@,
            blockentries: self.blockentries@,
            ammoburn: self.ammoburn,
            usecost: self.usecost@,
            avatarname: self.avatarname@,
        }
    }
}

/// The settings before any line is read: empty texts and 0.
pub open spec fn default_model() -> ConfigModel {
    ConfigModel {
        target_file: seq![],
        fifo_pipe: seq![],
        blockentries: seq![],
        ammoburn: 0,
        usecost: seq![],
        avatarname: seq![],
    }
}

/// An ASCII decimal digit.
pub open spec fn is_ascii_digit(c: char) -> bool {
    '0' <= c && c <= '9'
}

/// The number that the decimal digits `s` write.
pub open spec fn digits_value(s: Seq<char>) -> int
    decreases s.len(),
{
    if s.len() == 0 {
        0
    } else {
        digits_value(s.drop_last()) * 10 + (s.last() as int - '0' as int)
    }
}

/// Every character of `s` is an ASCII digit.
pub open spec fn all_digits(s: Seq<char>) -> bool {
    forall|i: int| 0 <= i < s.len() ==> is_ascii_digit(#[trigger] s[i])
}

/// `s` without a leading `+` or `-`.
pub open spec fn unsigned_part(s: Seq<char>) -> Seq<char> {
    if s.len() > 0 && (s[0] == '-' || s[0] == '+') {
        s.drop_first()
    } else {
        s
    }
}

/// What `str::parse::<i32>` gives: an optional `+` or `-`, then one or more
/// ASCII digits, whose value must lie in the range of `i32`.
pub open spec fn parse_i32_spec(s: Seq<char>) -> Option<i32> {
    let body = unsigned_part(s);
    if body.len() == 0 || !all_digits(body) {
        None
    } else {
        let v = if s[0] == '-' {
            -digits_value(body)
        } else {
            digits_value(body)
        };
        if i32::MIN <= v <= i32::MAX {
            Some(v as i32)
        } else {
            None
        }
    }
}

/// A longer run of digits never writes a smaller number.
proof fn lemma_digits_value_grows(s: Seq<char>, k: int)
    requires
        0 <= k <= s.len(),
        all_digits(s),
    ensures
        0 <= digits_value(s.take(k)) <= digits_value(s),
    decreases s.len(),
{
    if k == s.len() {
        assert(s.take(k) =~= s);
        lemma_digits_value_nonneg(s);
    } else {
        let p = s.drop_last();
        assert(s.take(k) =~= p.take(k));
        lemma_digits_value_grows(p, k);
        lemma_digits_value_nonneg(p);
    }
}

/// Digits write a number that is not negative.
proof fn lemma_digits_value_nonneg(s: Seq<char>)
    requires
        all_digits(s),
    ensures
        0 <= digits_value(s),
    decreases s.len(),
{
    if s.len() > 0 {
        let p = s.drop_last();
        assert forall|i: int| 0 <= i < p.len() implies is_ascii_digit(#[trigger] p[i]) by {
            assert(p[i] == s[i]);
        }
        lemma_digits_value_nonneg(p);
        assert(is_ascii_digit(s[s.len() - 1]));
    }
}

/// Reads an `i32` as `str::parse::<i32>` does.
pub fn parse_i32(s: &[char]) -> (r: Option<i32>)
    ensures
        r == parse_i32_spec(s@),
{
    let n = s.len();
    let neg = n > 0 && s[0] == '-';
    let start: usize = if n > 0 && (s[0] == '-' || s[0] == '+') {
        1
    } else {
        0
    };
    let body = copy_range(s, start, n);
    assert(body@ =~= unsigned_part(s@));
    if body.len() == 0 {
        return None;
    }
    let limit: i64 = 2147483648;
    let mut acc: i64 = 0;
    let mut i: usize = 0;
    assert(body@.take(0) =~= Seq::<char>::empty());
    while i < body.len()
        invariant
            body@ == unsigned_part(s@),
            body@.len() > 0,
            i <= body@.len(),
            forall|m: int| 0 <= m < i ==> is_ascii_digit(#[trigger] body@[m]),
            acc == digits_value(body@.take(i as int)),
            0 <= acc <= limit,
            limit == 2147483648,
        decreases body@.len() - i,
    {
        let c = body[i];
        if !('0' <= c && c <= '9') {
            assert(!is_ascii_digit(body@[i as int]));
            assert(!all_digits(body@));
            return None;
        }
        let d = (c as u32 - '0' as u32) as i64;
        assert(body@.take(i + 1).drop_last() =~= body@.take(i as int));
        acc = acc * 10 + d;
        i = i + 1;
        if acc > limit {
            proof {
                if all_digits(body@) {
                    lemma_digits_value_grows(body@, i as int);
                }
            }
            return None;
        }
    }
    assert(body@.take(body@.len() as int) =~= body@);
    if neg {
        Some((-acc) as i32)
    } else if acc <= 2147483647 {
        Some(acc as i32)
    } else {
        None
    }
}


/// The value of a setting as it is kept: trimmed, without the double quotes
/// around it, without trailing carriage returns, and trimmed again.
pub open spec fn clean_value(v: Seq<char>) -> Seq<char> {
    trim(strip_end_char(strip_char(trim(v), '"'), '\r'))
}

/// The `key = value` entry of one configuration line: none for a blank line,
/// a comment (`#` or `;` first) or a line without `=`; otherwise the trimmed
/// text before the first `=` and the cleaned text after it.
pub open spec fn config_entry(line: Seq<char>) -> Option<(Seq<char>, Seq<char>)> {
    let t = trim(line);
    if t.len() == 0 || t[0] == '#' || t[0] == ';' {
        None
    } else {
        match find(t, seq!['=']) {
            Some(i) => Some((trim(t.take(i)), clean_value(t.skip(i + 1)))),
            None => None,
        }
    }
}

/// The entries of the configuration lines `lines`, in order.
pub open spec fn entries_of_lines(lines: Seq<Seq<char>>) -> Seq<(Seq<char>, Seq<char>)>
    decreases lines.len(),
{
    if lines.len() == 0 {
        seq![]
    } else {
        let rest = entries_of_lines(lines.drop_first());
        match config_entry(lines[0]) {
            Some(e) => seq![e] + rest,
            None => rest,
        }
    }
}

/// The entries of a configuration text, line by line.
pub open spec fn config_entries_of(text: Seq<char>) -> Seq<(Seq<char>, Seq<char>)> {
    entries_of_lines(text_lines(text, '\n', '\r'))
}

/// The settings after the entry `key = value`: a known key takes the value
/// (`ammoburn` its `i32` reading, 0 when there is none); an unknown key changes nothing.
pub open spec fn apply_entry(m: ConfigModel, key: Seq<char>, value: Seq<char>) -> ConfigModel {
    if key == "target_file"@ {
        ConfigModel { target_file: value, ..m }
    } else if key == "fifo_pipe"@ {
        ConfigModel { fifo_pipe: value, ..m }
    } else if key == "blockentries"@ {
        ConfigModel { blockentries: value, ..m }
    } else if key == "ammoburn"@ {
        ConfigModel {
            ammoburn: match parse_i32_spec(value) {
                Some(n) => n,
                None => 0,
            },
            ..m
        }
    } else if key == "usecost"@ {
        ConfigModel { usecost: value, ..m }
    } else if key == "avatarname"@ {
        ConfigModel { avatarname: value, ..m }
    } else {
        m
    }
}

/// The settings that the entries `es` give, applied in order from the defaults.
pub open spec fn config_of_entries(es: Seq<(Seq<char>, Seq<char>)>) -> ConfigModel
    decreases es.len(),
{
    if es.len() == 0 {
        default_model()
    } else {
        apply_entry(config_of_entries(es.drop_last()), es.last().0, es.last().1)
    }
}

/// The settings that a configuration text gives.
pub open spec fn config_of_text(text: Seq<char>) -> ConfigModel {
    config_of_entries(config_entries_of(text))
}

/// The texts of a list of entries.
pub open spec fn entry_views(es: Seq<(String, String)>) -> Seq<(Seq<char>, Seq<char>)> {
    es.map_values(|e: (String, String)| (e.0@, e.1@))
}

/// Whether `a` and `b` hold the same characters.
pub fn chars_eq(a: &[char], b: &[char]) -> (r: bool)
    ensures
        r == (a@ == b@),
{
    if a.len() != b.len() {
        return false;
    }
    let mut i: usize = 0;
    while i < a.len()
        invariant
            a@.len() == b@.len(),
            i <= a@.len(),
            forall|m: int| 0 <= m < i ==> a@[m] == b@[m],
        decreases a@.len() - i,
    {
        if a[i] != b[i] {
            return false;
        }
        i = i + 1;
    }
    assert(a@ =~= b@);
    true
}

/// The entry of one configuration line, as `config_entry` gives it.
pub fn config_line_entry(line: &[char]) -> (r: Option<(String, String)>)
    ensures
        match r {
            Some(e) => config_entry(line@) == Some((e.0@, e.1@)),
            None => config_entry(line@) is None,
        },
{
    let t = trim_chars(line);
    if t.len() == 0 || t[0] == '#' || t[0] == ';' {
        return None;
    }
    let mut eq: Vec<char> = Vec::new();
    eq.push('=');
    assert(eq@ =~= seq!['=']);
    match find_chars(t.as_slice(), eq.as_slice()) {
        Some(i) => {
            proof {
                lemma_find(t@, eq@);
                assert(occurs_at(t@, eq@, i as int));
            }
            let n = t.len();
            let key = trim_chars(copy_range(t.as_slice(), 0, i).as_slice());
            let raw = copy_range(t.as_slice(), i + 1, n);
            assert(raw@ =~= t@.skip(i + 1));
            assert(t@.subrange(0, i as int) =~= t@.take(i as int));
            let v1 = trim_chars(raw.as_slice());
            let v2 = strip_char_chars(v1.as_slice(), '"');
            let v3 = strip_end_char_chars(v2.as_slice(), '\r');
            let v4 = trim_chars(v3.as_slice());
            Some((string_of(key.as_slice()), string_of(v4.as_slice())))
        },
        None => None,
    }
}

/// The `key = value` entries of a configuration text, in order of its lines.
pub fn config_entries(text: &str) -> (r: Vec<(String, String)>)
    ensures
        entry_views(r@) == config_entries_of(text@),
{
    let chars = chars_of(text);
    let lines = text_lines_chars(chars.as_slice());
    let ghost ls = text_lines(text@, '\n', '\r');
    let mut out: Vec<(String, String)> = Vec::new();
    let mut i: usize = 0;
    assert(ls.skip(0) =~= ls);
    while i < lines.len()
        invariant
            views(lines@) == ls,
            i <= lines@.len(),
            entries_of_lines(ls) == entry_views(out@) + entries_of_lines(ls.skip(i as int)),
        decreases lines@.len() - i,
    {
        assert(ls.skip(i as int)[0] == lines@[i as int]@);
        assert(ls.skip(i as int).drop_first() =~= ls.skip(i + 1));
        let ghost prev = entry_views(out@);
        match config_line_entry(lines[i].as_slice()) {
            Some(e) => {
                let ghost ev = (e.0@, e.1@);
                out.push(e);
                assert(entry_views(out@) =~= prev.push(ev));
                assert(prev.push(ev) + entries_of_lines(ls.skip(i + 1)) =~= prev + (seq![ev]
                    + entries_of_lines(ls.skip(i + 1))));
            },
            None => {},
        }
        i = i + 1;
    }
    assert(ls.skip(i as int) =~= Seq::<Seq<char>>::empty());
    assert(entry_views(out@) + Seq::<(Seq<char>, Seq<char>)>::empty() =~= entry_views(out@));
    out
}

impl Config {
    /// The settings before any line is read: empty texts and 0.
    pub fn empty() -> (c: Config)
        ensures
            c@ == default_model(),
    {
        Config {
            target_file: String::new(),
            fifo_pipe: String::new(),
            blockentries: String::new(),
            ammoburn: 0,
            usecost: String::new(),
            avatarname: String::new(),
        }
    }

    /// Applies the entry `key = value` to the settings.
    pub fn apply(&mut self, key: &str, value: &str)
        ensures
            final(self)@ == apply_entry(old(self)@, key@, value@),
    {
        let k = chars_of(key);
        if chars_eq(k.as_slice(), chars_of("target_file").as_slice()) {
            self.target_file = value.to_owned();
        } else if chars_eq(k.as_slice(), chars_of("fifo_pipe").as_slice()) {
            self.fifo_pipe = value.to_owned();
        } else if chars_eq(k.as_slice(), chars_of("blockentries").as_slice()) {
            self.blockentries = value.to_owned();
        } else if chars_eq(k.as_slice(), chars_of("ammoburn").as_slice()) {
            self.ammoburn = match parse_i32(chars_of(value).as_slice()) {
                Some(n) => n,
                None => 0,
            };
        } else if chars_eq(k.as_slice(), chars_of("usecost").as_slice()) {
            self.usecost = value.to_owned();
        } else if chars_eq(k.as_slice(), chars_of("avatarname").as_slice()) {
            self.avatarname = value.to_owned();
        }
    }

    /// The settings that the entries give, applied in order from the defaults.
    pub fn from_entries(entries: &[(String, String)]) -> (c: Config)
        ensures
            c@ == config_of_entries(entry_views(entries@)),
    {
        let ghost es = entry_views(entries@);
        let mut c = Config::empty();
        let mut i: usize = 0;
        assert(es.take(0) =~= Seq::<(Seq<char>, Seq<char>)>::empty());
        while i < entries.len()
            invariant
                es == entry_views(entries@),
                i <= entries@.len(),
                c@ == config_of_entries(es.take(i as int)),
            decreases entries@.len() - i,
        {
            assert(es.take(i + 1).drop_last() =~= es.take(i as int));
            c.apply(entries[i].0.as_str(), entries[i].1.as_str());
            i = i + 1;
        }
        assert(es.take(entries@.len() as int) =~= es);
        c
    }

    /// The settings that a configuration text gives.
    pub fn parse(text: &str) -> (c: Config)
        ensures
            c@ == config_of_text(text@),
    {
        let entries = config_entries(text);
        Config::from_entries(entries.as_slice())
    }
}


/// The pieces of `s` between the separators `sep`, as `str::split` gives them.
pub open spec fn split_on<T>(s: Seq<T>, sep: T) -> Seq<Seq<T>>
    decreases s.len(),
{
    let k = line_len(s, sep);
    if k >= s.len() {
        seq![s]
    } else {
        seq![s.take(k as int)] + split_on(s.skip(k + 1 as int), sep)
    }
}

/// The trimmed pieces that are not empty, in order.
pub open spec fn nonempty_trimmed(pieces: Seq<Seq<char>>) -> Seq<Seq<char>>
    decreases pieces.len(),
{
    if pieces.len() == 0 {
        seq![]
    } else {
        let t = trim(pieces[0]);
        let rest = nonempty_trimmed(pieces.drop_first());
        if t.len() > 0 {
            seq![t] + rest
        } else {
            rest
        }
    }
}

/// The blocked entries of a comma-separated list: each item trimmed, empty items left out.
pub open spec fn block_entries_of(list: Seq<char>) -> Seq<Seq<char>> {
    nonempty_trimmed(split_on(list, ','))
}

/// The texts of a list of strings.
pub open spec fn string_views(v: Seq<String>) -> Seq<Seq<char>> {
    v.map_values(|s: String| s@)
}

/// The items of a comma-separated list, trimmed, with the empty ones left out.
pub fn block_entries(list: &str) -> (r: Vec<String>)
    ensures
        string_views(r@) == block_entries_of(list@),
{
    let s = chars_of(list);
    let n = s.len();
    let mut out: Vec<String> = Vec::new();
    let mut i: usize = 0;
    assert(s@.skip(0) =~= s@);
    loop
        invariant
            n == s@.len(),
            s@ == list@,
            i <= n,
            block_entries_of(s@) == string_views(out@) + nonempty_trimmed(split_on(s@.skip(i as int), ',')),
        decreases n - i,
    {
        let ghost t = s@.skip(i as int);
        let ghost prev = string_views(out@);
        let j = next_index_of(s.as_slice(), i, ',');
        let piece = copy_range(s.as_slice(), i, j);
        let ghost pieces = split_on(t, ',');
        if j < n {
            assert(t.take(j - i) =~= piece@);
            assert(t.skip(j - i + 1) =~= s@.skip(j + 1));
            assert(pieces[0] == piece@);
            assert(pieces.drop_first() =~= split_on(s@.skip(j + 1), ','));
        } else {
            assert(t =~= piece@);
            assert(pieces =~= seq![piece@]);
            assert(pieces.drop_first() =~= Seq::<Seq<char>>::empty());
        }
        let trimmed = trim_chars(piece.as_slice());
        if trimmed.len() > 0 {
            out.push(string_of(trimmed.as_slice()));
            assert(string_views(out@) =~= prev.push(trimmed@));
            assert(prev.push(trimmed@) + nonempty_trimmed(pieces.drop_first()) =~= prev + (seq![trimmed@]
                + nonempty_trimmed(pieces.drop_first())));
        }
        if j == n {
            assert(nonempty_trimmed(pieces.drop_first()) =~= Seq::<Seq<char>>::empty());
            assert(string_views(out@) + Seq::<Seq<char>>::empty() =~= string_views(out@));
            return out;
        }
        i = j + 1;
    }
}

impl Config {
    /// The blocked entries: the comma-separated items of `blockentries`,
    /// trimmed, with the empty ones left out.
    pub fn blockentries_vec(&self) -> (r: Vec<String>)
        ensures
            string_views(r@) == block_entries_of(self.blockentries@),
    {
        block_entries(self.blockentries.as_str())
    }
}

/// A key that the settings know.
pub open spec fn is_known_key(key: Seq<char>) -> bool {
    ||| key == "target_file"@
    ||| key == "fifo_pipe"@
    ||| key == "blockentries"@
    ||| key == "ammoburn"@
    ||| key == "usecost"@
    ||| key == "avatarname"@
}

/// When a key is set twice, the later value is the one that counts: the
/// earlier entry leaves no trace.
pub proof fn lemma_later_entry_wins(
    es: Seq<(Seq<char>, Seq<char>)>,
    key: Seq<char>,
    first: Seq<char>,
    second: Seq<char>,
)
    ensures
        config_of_entries(es.push((key, first)).push((key, second))) == config_of_entries(
            es.push((key, second)),
        ),
{
    let a = es.push((key, first)).push((key, second));
    let b = es.push((key, second));
    assert(a.drop_last() =~= es.push((key, first)));
    assert(es.push((key, first)).drop_last() =~= es);
    assert(b.drop_last() =~= es);
    let m = config_of_entries(es);
    assert(config_of_entries(es.push((key, first))) == apply_entry(m, key, first));
    assert(config_of_entries(a) == apply_entry(apply_entry(m, key, first), key, second));
    assert(config_of_entries(b) == apply_entry(m, key, second));
}

/// An entry whose key the settings do not know changes nothing.
pub proof fn lemma_unknown_key_ignored(es: Seq<(Seq<char>, Seq<char>)>, key: Seq<char>, value: Seq<char>)
    requires
        !is_known_key(key),
    ensures
        config_of_entries(es.push((key, value))) == config_of_entries(es),
{
    assert(es.push((key, value)).drop_last() =~= es);
}

/// No piece of `split_on(s, sep)` holds `sep`.
pub proof fn lemma_split_on_pieces<T>(s: Seq<T>, sep: T)
    ensures
        forall|i: int, j: int|
            0 <= i < split_on(s, sep).len() && 0 <= j < split_on(s, sep)[i].len() ==> split_on(
                s,
                sep,
            )[i][j] != sep,
    decreases s.len(),
{
    lemma_line_len(s, sep);
    let k = line_len(s, sep);
    if k < s.len() {
        let rest = s.skip(k + 1 as int);
        lemma_split_on_pieces(rest, sep);
        let ps = split_on(s, sep);
        assert forall|i: int, j: int| 0 <= i < ps.len() && 0 <= j < ps[i].len() implies ps[i][j] != sep by {
            if i > 0 {
                assert(ps[i] == split_on(rest, sep)[i - 1]);
            } else {
                assert(ps[0][j] == s[j]);
            }
        }
    }
}

/// Pieces that hold no `sep` keep none once trimmed and filtered.
proof fn lemma_nonempty_trimmed(pieces: Seq<Seq<char>>, sep: char)
    requires
        forall|i: int, j: int| 0 <= i < pieces.len() && 0 <= j < pieces[i].len() ==> pieces[i][j] != sep,
    ensures
        forall|i: int| 0 <= i < nonempty_trimmed(pieces).len() ==> {
            let e = #[trigger] nonempty_trimmed(pieces)[i];
            &&& e.len() > 0
            &&& !is_white_space(e[0])
            &&& !is_white_space(e.last())
            &&& forall|j: int| 0 <= j < e.len() ==> e[j] != sep
        },
    decreases pieces.len(),
{
    if pieces.len() > 0 {
        let rest = pieces.drop_first();
        assert forall|i: int, j: int| 0 <= i < rest.len() && 0 <= j < rest[i].len() implies rest[i][j] != sep by {
            assert(rest[i] == pieces[i + 1]);
        }
        lemma_nonempty_trimmed(rest, sep);
        lemma_trim(pieces[0]);
        let t = trim(pieces[0]);
        let (lo, hi) = choose|lo: int, hi: int| 0 <= lo <= hi <= pieces[0].len() && t == pieces[0].subrange(lo, hi);
        assert forall|j: int| 0 <= j < t.len() implies t[j] != sep by {
            assert(t[j] == pieces[0][lo + j]);
        }
        let out = nonempty_trimmed(pieces);
        assert forall|i: int| 0 <= i < out.len() implies {
            let e = #[trigger] out[i];
            &&& e.len() > 0
            &&& !is_white_space(e[0])
            &&& !is_white_space(e.last())
            &&& forall|j: int| 0 <= j < e.len() ==> e[j] != sep
        } by {
            if t.len() > 0 {
                if i > 0 {
                    assert(out[i] == nonempty_trimmed(rest)[i - 1]);
                }
            } else {
                assert(out[i] == nonempty_trimmed(rest)[i]);
            }
        }
    }
}

/// Every blocked entry is non-empty, neither starts nor ends with
/// whitespace, and holds no comma.
pub proof fn lemma_block_entries_clean(list: Seq<char>)
    ensures
        forall|i: int| 0 <= i < block_entries_of(list).len() ==> {
            let e = #[trigger] block_entries_of(list)[i];
            &&& e.len() > 0
            &&& !is_white_space(e[0])
            &&& !is_white_space(e.last())
            &&& forall|j: int| 0 <= j < e.len() ==> e[j] != ','
        },
{
    lemma_split_on_pieces(list, ',');
    lemma_nonempty_trimmed(split_on(list, ','), ',');
}


/// The entries of two runs of lines are the entries of the first followed by
/// those of the second.
proof fn lemma_entries_append(x: Seq<Seq<char>>, y: Seq<Seq<char>>)
    ensures
        entries_of_lines(x + y) == entries_of_lines(x) + entries_of_lines(y),
    decreases x.len(),
{
    if x.len() == 0 {
        assert(x + y =~= y);
        assert(Seq::<(Seq<char>, Seq<char>)>::empty() + entries_of_lines(y) =~= entries_of_lines(y));
    } else {
        lemma_entries_append(x.drop_first(), y);
        assert((x + y).drop_first() =~= x.drop_first() + y);
        assert((x + y)[0] == x[0]);
        match config_entry(x[0]) {
            Some(e) => {
                assert(seq![e] + (entries_of_lines(x.drop_first()) + entries_of_lines(y)) =~= seq![e]
                    + entries_of_lines(x.drop_first()) + entries_of_lines(y));
            },
            None => {},
        }
    }
}

/// The configuration is read line by line: a text made of two parts, the first
/// empty or ending with a newline, holds the entries of the first part followed
/// by those of the second.
pub proof fn lemma_config_text_concat(a: Seq<char>, b: Seq<char>)
    requires
        a.len() == 0 || a.last() == '\n',
    ensures
        config_entries_of(a + b) == config_entries_of(a) + config_entries_of(b),
{
    lemma_text_lines_append(a, b, '\n', '\r');
    lemma_entries_append(text_lines(a, '\n', '\r'), text_lines(b, '\n', '\r'));
}


/// The pieces `ps` with `sep` between each two of them.
pub open spec fn join_with<T>(ps: Seq<Seq<T>>, sep: T) -> Seq<T>
    decreases ps.len(),
{
    if ps.len() == 0 {
        seq![]
    } else if ps.len() == 1 {
        ps[0]
    } else {
        ps[0] + seq![sep] + join_with(ps.drop_first(), sep)
    }
}

/// Splitting loses nothing: the pieces, with `sep` put back between them,
/// give back the whole text, and there is at least one piece.
pub proof fn lemma_split_on_rejoins<T>(s: Seq<T>, sep: T)
    ensures
        split_on(s, sep).len() >= 1,
        join_with(split_on(s, sep), sep) == s,
    decreases s.len(),
{
    lemma_line_len(s, sep);
    let k = line_len(s, sep);
    if k >= s.len() {
        assert(split_on(s, sep) =~= seq![s]);
    } else {
        let rest = s.skip(k + 1 as int);
        lemma_split_on_rejoins(rest, sep);
        let ps = split_on(s, sep);
        assert(ps.drop_first() =~= split_on(rest, sep));
        assert(s =~= s.take(k as int) + seq![sep] + rest);
    }
}

/// The trimmed pieces kept are exactly the pieces, each trimmed, in order,
/// with those that trim to nothing left out.
proof fn lemma_nonempty_trimmed_filter(ps: Seq<Seq<char>>)
    ensures
        nonempty_trimmed(ps) == ps.map_values(|p: Seq<char>| trim(p)).filter(
            |t: Seq<char>| t.len() > 0,
        ),
    decreases ps.len(),
{
    let f = |p: Seq<char>| trim(p);
    let keep = |t: Seq<char>| t.len() > 0;
    if ps.len() == 0 {
        assert(ps.map_values(f) =~= Seq::<Seq<char>>::empty());
    } else {
        lemma_nonempty_trimmed_filter(ps.drop_first());
        let m = ps.map_values(f);
        assert(m =~= seq![trim(ps[0])] + ps.drop_first().map_values(f));
        Seq::filter_distributes_over_add(seq![trim(ps[0])], ps.drop_first().map_values(f), keep);
        reveal_with_fuel(Seq::filter, 2);
        assert(seq![trim(ps[0])].drop_last() =~= Seq::<Seq<char>>::empty());
    }
}

/// The blocked entries are the comma-separated pieces of the list, each
/// trimmed, in order, without those that are empty once trimmed.
pub proof fn lemma_block_entries_are_trimmed_pieces(list: Seq<char>)
    ensures
        block_entries_of(list) == split_on(list, ',').map_values(|p: Seq<char>| trim(p)).filter(
            |t: Seq<char>| t.len() > 0,
        ),
{
    lemma_nonempty_trimmed_filter(split_on(list, ','));
}


/// The entry at `i` is the last one in `es` whose key is `key`.
pub open spec fn is_last_for_key(es: Seq<(Seq<char>, Seq<char>)>, key: Seq<char>, i: int) -> bool {
    &&& 0 <= i < es.len()
    &&& es[i].0 == key
    &&& forall|j: int| i < j < es.len() ==> es[j].0 != key
}

/// No entry of `es` has the key `key`.
pub open spec fn key_absent(es: Seq<(Seq<char>, Seq<char>)>, key: Seq<char>) -> bool {
    forall|j: int| 0 <= j < es.len() ==> es[j].0 != key
}

/// Each setting is the value of the last entry with its key, or the default
/// when no entry has that key; entries with other keys do not touch it.
pub proof fn lemma_settings_from_last_entries(es: Seq<(Seq<char>, Seq<char>)>)
    ensures
        forall|i: int| is_last_for_key(es, "target_file"@, i) ==> config_of_entries(es).target_file == es[i].1,
        key_absent(es, "target_file"@) ==> config_of_entries(es).target_file == Seq::<char>::empty(),
        forall|i: int| is_last_for_key(es, "fifo_pipe"@, i) ==> config_of_entries(es).fifo_pipe == es[i].1,
        key_absent(es, "fifo_pipe"@) ==> config_of_entries(es).fifo_pipe == Seq::<char>::empty(),
        forall|i: int| is_last_for_key(es, "blockentries"@, i) ==> config_of_entries(es).blockentries == es[i].1,
        key_absent(es, "blockentries"@) ==> config_of_entries(es).blockentries == Seq::<char>::empty(),
        forall|i: int| is_last_for_key(es, "ammoburn"@, i) ==> config_of_entries(es).ammoburn == match parse_i32_spec(es[i].1) {
            Some(n) => n,
            None => 0i32,
        },
        key_absent(es, "ammoburn"@) ==> config_of_entries(es).ammoburn == 0,
        forall|i: int| is_last_for_key(es, "usecost"@, i) ==> config_of_entries(es).usecost == es[i].1,
        key_absent(es, "usecost"@) ==> config_of_entries(es).usecost == Seq::<char>::empty(),
        forall|i: int| is_last_for_key(es, "avatarname"@, i) ==> config_of_entries(es).avatarname == es[i].1,
        key_absent(es, "avatarname"@) ==> config_of_entries(es).avatarname == Seq::<char>::empty(),
    decreases es.len(),
{
    if es.len() > 0 {
        let p = es.drop_last();
        lemma_settings_from_last_entries(p);
        let n = es.len() - 1;
        let (k, v) = es[n];
        let m = config_of_entries(p);
        assert(config_of_entries(es) == apply_entry(m, k, v));
        lemma_apply_entry_fields(m, k, v);
        assert forall|key: Seq<char>, i: int| is_last_for_key(es, key, i) && i < n implies is_last_for_key(
            p,
            key,
            i,
        ) by {
            assert(p[i] == es[i]);
            assert forall|j: int| i < j < p.len() implies p[j].0 != key by {
                assert(p[j] == es[j]);
            }
        }
        assert forall|key: Seq<char>| key_absent(es, key) implies key_absent(p, key) by {
            assert forall|j: int| 0 <= j < p.len() implies p[j].0 != key by {
                assert(p[j] == es[j]);
            }
        }
        assert forall|key: Seq<char>, i: int| is_last_for_key(es, key, i) && k != key implies i < n by {}
        assert forall|key: Seq<char>, i: int| is_last_for_key(es, key, i) && k == key implies i == n by {}
    }
}

/// An entry sets the one setting its key names and leaves the others.
proof fn lemma_apply_entry_fields(m: ConfigModel, key: Seq<char>, value: Seq<char>)
    ensures
        apply_entry(m, key, value).target_file == if key == "target_file"@ {
            value
        } else {
            m.target_file
        },
        apply_entry(m, key, value).fifo_pipe == if key == "fifo_pipe"@ {
            value
        } else {
            m.fifo_pipe
        },
        apply_entry(m, key, value).blockentries == if key == "blockentries"@ {
            value
        } else {
            m.blockentries
        },
        apply_entry(m, key, value).ammoburn == if key == "ammoburn"@ {
            match parse_i32_spec(value) {
                Some(n) => n,
                None => 0i32,
            }
        } else {
            m.ammoburn
        },
        apply_entry(m, key, value).usecost == if key == "usecost"@ {
            value
        } else {
            m.usecost
        },
        apply_entry(m, key, value).avatarname == if key == "avatarname"@ {
            value
        } else {
            m.avatarname
        },
{
    reveal_strlit("target_file");
    reveal_strlit("fifo_pipe");
    reveal_strlit("blockentries");
    reveal_strlit("ammoburn");
    reveal_strlit("usecost");
    reveal_strlit("avatarname");
    assert("target_file"@.len() == 11);
    assert("fifo_pipe"@.len() == 9);
    assert("blockentries"@.len() == 12);
    assert("ammoburn"@.len() == 8);
    assert("usecost"@.len() == 7);
    assert("avatarname"@.len() == 10);
}


/// The entry of a configuration line, said of the line itself: a blank line,
/// a line whose first visible character is `#` or `;`, and a line without
/// `=` give none; otherwise the key is the trimmed text before the first `=`
/// and the value the cleaned text after it.
pub proof fn lemma_config_entry(line: Seq<char>)
    ensures
        ({
            let t = trim(line);
            &&& (t.len() == 0 || t[0] == '#' || t[0] == ';') ==> config_entry(line) is None
            &&& (t.len() > 0 && t[0] != '#' && t[0] != ';' && forall|j: int| 0 <= j < t.len() ==> t[j] != '=')
                ==> config_entry(line) is None
            &&& forall|i: int|
                (t.len() > 0 && t[0] != '#' && t[0] != ';' && 0 <= i < t.len() && t[i] == '=' && forall|j: int|
                    0 <= j < i ==> t[j] != '=') ==> config_entry(line) == Some(
                    (trim(t.take(i)), clean_value(t.skip(i + 1))),
                )
        }),
{
    let t = trim(line);
    let eq = seq!['='];
    lemma_find(t, eq);
    assert forall|j: int| 0 <= j < t.len() implies (t[j] == '=' <==> occurs_at(t, eq, j)) by {
        if t[j] == '=' {
            assert(t.subrange(j, j + 1) =~= eq);
        }
        if occurs_at(t, eq, j) {
            assert(t.subrange(j, j + 1)[0] == t[j]);
        }
    }
    if t.len() > 0 && t[0] != '#' && t[0] != ';' {
        match find(t, eq) {
            Some(f) => {
                assert(t[f] == '=');
                assert forall|i: int|
                    0 <= i < t.len() && t[i] == '=' && (forall|j: int| 0 <= j < i ==> t[j] != '=') implies i
                    == f by {
                    if f < i {
                        assert(t[f] == '=');
                    }
                    if i < f {
                        assert(occurs_at(t, eq, i));
                    }
                }
            },
            None => {
                assert forall|i: int| 0 <= i < t.len() implies t[i] != '=' by {
                    if t[i] == '=' {
                        assert(occurs_at(t, eq, i));
                    }
                }
            },
        }
    }
}


/// The decimal digit for `d`, `0 <= d < 10`.
pub open spec fn digit_char(d: nat) -> char {
    (48 + d) as char
}

/// The decimal writing of `n`, without sign or leading zeros.
pub open spec fn decimal(n: nat) -> Seq<char>
    decreases n,
{
    if n < 10 {
        seq![digit_char(n)]
    } else {
        decimal(n / 10).push(digit_char(n % 10))
    }
}

proof fn lemma_decimal(n: nat)
    ensures
        decimal(n).len() > 0,
        all_digits(decimal(n)),
        digits_value(decimal(n)) == n,
        decimal(n)[0] != '-' && decimal(n)[0] != '+',
    decreases n,
{
    assert(digit_char(n % 10) as int == 48 + n % 10);
    assert(is_ascii_digit(digit_char(n % 10)));
    if n < 10 {
        assert(n % 10 == n);
        assert(is_ascii_digit(decimal(n)[0]));
        let d = decimal(n);
        assert(d == seq![digit_char(n)]);
        assert(d.drop_last() =~= Seq::<char>::empty());
        assert(digits_value(d.drop_last()) == 0);
        assert(digit_char(n) as int == 48 + n);
        assert(d.last() as int == 48 + n);
        assert('0' as int == 48);
        assert(digits_value(d) == n);
    }
    if n >= 10 {
        lemma_decimal(n / 10);
        let d = decimal(n);
        assert(d.drop_last() =~= decimal(n / 10));
        assert('0' as int == 48);
        assert(d.last() as int == 48 + n % 10);
        assert(digits_value(d) == (n / 10) * 10 + n % 10);
        assert forall|i: int| 0 <= i < d.len() implies is_ascii_digit(#[trigger] d[i]) by {
            if i < d.len() - 1 {
                assert(d[i] == decimal(n / 10)[i]);
            }
        }
        assert(d[0] == decimal(n / 10)[0]);
    }
}

/// Reading an `i32` gives back every number from its decimal writing, with
/// an optional `+` or a `-`, and gives nothing for a text with no digit or
/// with a character that is neither a digit nor a sign in front.
pub proof fn lemma_parse_i32_reads_decimal(n: nat)
    ensures
        n <= i32::MAX ==> parse_i32_spec(decimal(n)) == Some(n as i32),
        n <= i32::MAX ==> parse_i32_spec(seq!['+'] + decimal(n)) == Some(n as i32),
        n <= i32::MAX + 1 ==> parse_i32_spec(seq!['-'] + decimal(n)) == Some((-n) as i32),
        n > i32::MAX + 1 ==> parse_i32_spec(decimal(n)) is None && parse_i32_spec(seq!['-'] + decimal(n)) is None,
{
    lemma_decimal(n);
    assert((seq!['+'] + decimal(n)).drop_first() =~= decimal(n));
    assert((seq!['-'] + decimal(n)).drop_first() =~= decimal(n));
}

/// A text is read as no number when it has no digit after its sign, or when
/// one of its characters after the sign is not a digit.
pub proof fn lemma_parse_i32_rejects(s: Seq<char>, i: int)
    requires
        0 <= i < s.len(),
        !is_ascii_digit(s[i]),
        i > 0 || (s[0] != '-' && s[0] != '+') || s.len() == 1,
    ensures
        parse_i32_spec(s) is None,
{
    let b = unsigned_part(s);
    if s[0] == '-' || s[0] == '+' {
        if s.len() > 1 {
            assert(b[i - 1] == s[i]);
        }
    } else {
        assert(b[i] == s[i]);
    }
}


/// The entries of a run of lines are the entries of the lines that have one,
/// in the order of the lines: no line's entry is lost, none is added.
pub proof fn lemma_entries_are_line_entries(ls: Seq<Seq<char>>)
    ensures
        entries_of_lines(ls) == ls.filter(|l: Seq<char>| config_entry(l) is Some).map_values(
            |l: Seq<char>| config_entry(l).unwrap(),
        ),
    decreases ls.len(),
{
    let has = |l: Seq<char>| config_entry(l) is Some;
    let get = |l: Seq<char>| config_entry(l).unwrap();
    if ls.len() == 0 {
        assert(ls.filter(has) =~= Seq::<Seq<char>>::empty());
        assert(ls.filter(has).map_values(get) =~= Seq::<(Seq<char>, Seq<char>)>::empty());
    } else {
        let rest = ls.drop_first();
        lemma_entries_are_line_entries(rest);
        assert(ls =~= seq![ls[0]] + rest);
        Seq::filter_distributes_over_add(seq![ls[0]], rest, has);
        reveal_with_fuel(Seq::filter, 2);
        assert(seq![ls[0]].drop_last() =~= Seq::<Seq<char>>::empty());
        if has(ls[0]) {
            assert(seq![ls[0]].filter(has) =~= seq![ls[0]]);
            assert((seq![ls[0]] + rest.filter(has)).map_values(get) =~= seq![get(ls[0])] + rest.filter(
                has,
            ).map_values(get));
        } else {
            assert(seq![ls[0]].filter(has) =~= Seq::<Seq<char>>::empty());
            assert(Seq::<Seq<char>>::empty() + rest.filter(has) =~= rest.filter(has));
        }
    }
}

} // verus!
