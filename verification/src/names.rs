//! File names of the durable store, and what can be read back out of them.
//!
//! A store directory holds `seg-<ordinal>.tvim` (sealed segments, written once),
//! `hot-<generation>.tvim` (a snapshot of the hot segment per generation),
//! `MANIFEST-<generation>` and `CURRENT`, which names the active manifest.
//! Numbers are decimal, padded with zeroes to eight digits.
use vstd::prelude::*;
use vstd::string::*;

verus! {

/// The digit character of a number below ten.
pub open spec fn digit_char(d: nat) -> char {
    ('0' as u32 + d) as char
}

/// Whether a character is a decimal digit.
pub open spec fn is_digit(c: char) -> bool {
    '0' as u32 <= c as u32 <= '9' as u32
}

/// `n` in decimal with at least `width` digits, padded with zeroes on the left.
pub open spec fn padded(n: nat, width: nat) -> Seq<char>
    decreases n + width,
{
    if n < 10 && width <= 1 {
        seq![digit_char(n)]
    } else {
        padded(
            n / 10,
            if width == 0 {
                0
            } else {
                (width - 1) as nat
            },
        ).push(digit_char(n % 10))
    }
}

/// The number that a string of decimal digits denotes.
pub open spec fn decimal_value(s: Seq<char>) -> nat
    decreases s.len(),
{
    if s.len() == 0 {
        0
    } else {
        decimal_value(s.drop_last()) * 10 + (s.last() as u32 - '0' as u32) as nat
    }
}

/// Every character is a decimal digit.
pub open spec fn all_digits(s: Seq<char>) -> bool {
    forall|i: int| 0 <= i < s.len() ==> is_digit(#[trigger] s[i])
}

/// The unsigned 64-bit number that `s` denotes: one or more decimal digits,
/// which a single `+` may precede, with a value that fits.
pub open spec fn parse_number(s: Seq<char>) -> Option<u64> {
    let t = if s.len() > 0 && s[0] == '+' {
        s.skip(1)
    } else {
        s
    };
    if t.len() > 0 && all_digits(t) && decimal_value(t) <= u64::MAX {
        Some(decimal_value(t) as u64)
    } else {
        None
    }
}

/// What follows `prefix` in `s`, where `s` begins with it.
pub open spec fn after_prefix(s: Seq<char>, prefix: Seq<char>) -> Option<Seq<char>> {
    if prefix.len() <= s.len() && s.take(prefix.len() as int) == prefix {
        Some(s.skip(prefix.len() as int))
    } else {
        None
    }
}

/// What precedes `suffix` in `s`, where `s` ends with it.
pub open spec fn before_suffix(s: Seq<char>, suffix: Seq<char>) -> Option<Seq<char>> {
    if suffix.len() <= s.len() && s.skip(s.len() - suffix.len()) == suffix {
        Some(s.take(s.len() - suffix.len()))
    } else {
        None
    }
}

/// The name of the file that holds the sealed segment with this ordinal.
pub open spec fn segment_name(ordinal: nat) -> Seq<char> {
    "seg-"@ + padded(ordinal, 8) + ".tvim"@
}

/// The name of the hot-segment snapshot of a generation.
pub open spec fn hot_name(generation: nat) -> Seq<char> {
    "hot-"@ + padded(generation, 8) + ".tvim"@
}

/// The name of the manifest of a generation.
pub open spec fn manifest_name(generation: nat) -> Seq<char> {
    "MANIFEST-"@ + padded(generation, 8)
}

/// The name of the file that names the active manifest.
pub open spec fn current_name() -> Seq<char> {
    "CURRENT"@
}

/// The generation that a manifest's name carries, 0 where it carries none.
pub open spec fn generation_of(name: Seq<char>) -> u64 {
    match after_prefix(name, "MANIFEST-"@) {
        Some(t) => match parse_number(t) {
            Some(g) => g,
            None => 0,
        },
        None => 0,
    }
}

/// The generation to which a file belongs: a hot snapshot's or a manifest's.
/// No other file belongs to a single generation.
pub open spec fn file_generation(name: Seq<char>) -> Option<u64> {
    let snapshot = match after_prefix(name, "hot-"@) {
        Some(t) => before_suffix(t, ".tvim"@),
        None => None,
    };
    let number = match snapshot {
        Some(t) => Some(t),
        None => after_prefix(name, "MANIFEST-"@),
    };
    match number {
        Some(t) => parse_number(t),
        None => None,
    }
}

/// Whether a file belongs to a generation older than `keep`.
pub open spec fn is_superseded(name: Seq<char>, keep: u64) -> bool {
    file_generation(name) matches Some(g) && g < keep
}

/// Whether a character is white space (Unicode property `White_Space`).
pub open spec fn is_space(c: char) -> bool {
    let n = c as u32;
    ||| 0x9 <= n <= 0xD
    ||| n == 0x20
    ||| n == 0x85
    ||| n == 0xA0
    ||| n == 0x1680
    ||| 0x2000 <= n <= 0x200A
    ||| n == 0x2028
    ||| n == 0x2029
    ||| n == 0x202F
    ||| n == 0x205F
    ||| n == 0x3000
}

/// `s` without the white space at its two ends.
pub open spec fn trimmed(s: Seq<char>) -> Seq<char>
    decreases s.len(),
{
    if s.len() > 0 && is_space(s[0]) {
        trimmed(s.drop_first())
    } else if s.len() > 0 && is_space(s.last()) {
        trimmed(s.drop_last())
    } else {
        s
    }
}

fn digit_str(d: u64) -> (s: &'static str)
    requires
        d < 10,
    ensures
        s@ == seq![digit_char(d as nat)],
{
    proof {
        reveal_strlit("0");
        reveal_strlit("1");
        reveal_strlit("2");
        reveal_strlit("3");
        reveal_strlit("4");
        reveal_strlit("5");
        reveal_strlit("6");
        reveal_strlit("7");
        reveal_strlit("8");
        reveal_strlit("9");
    }
    let s: &'static str = match d {
        0 => "0",
        1 => "1",
        2 => "2",
        3 => "3",
        4 => "4",
        5 => "5",
        6 => "6",
        7 => "7",
        8 => "8",
        _ => "9",
    };
    assert(s@ =~= seq![digit_char(d as nat)]);
    s
}

fn append_padded(out: &mut String, n: u64, width: u64)
    ensures
        final(out)@ == old(out)@ + padded(n as nat, width as nat),
    decreases n + width,
{
    if !(n < 10 && width <= 1) {
        append_padded(
            out,
            n / 10,
            if width == 0 {
                0
            } else {
                width - 1
            },
        );
    }
    out.append(digit_str(n % 10));
    assert(out@ =~= old(out)@ + padded(n as nat, width as nat));
}

/// The file name of the sealed segment with this ordinal.
pub fn segment_file_name(ordinal: usize) -> (name: String)
    ensures
        name@ == segment_name(ordinal as nat),
{
    let mut name: String = "seg-".to_owned();
    append_padded(&mut name, ordinal as u64, 8);
    name.append(".tvim");
    name
}

/// The file name of the hot-segment snapshot of a generation.
pub fn hot_file_name(generation: u64) -> (name: String)
    ensures
        name@ == hot_name(generation as nat),
{
    let mut name: String = "hot-".to_owned();
    append_padded(&mut name, generation, 8);
    name.append(".tvim");
    name
}

/// The file name of the manifest of a generation.
pub fn manifest_file_name(generation: u64) -> (name: String)
    ensures
        name@ == manifest_name(generation as nat),
{
    let mut name: String = "MANIFEST-".to_owned();
    append_padded(&mut name, generation, 8);
    name
}

fn chars_of(s: &str) -> (chars: Vec<char>)
    ensures
        chars@ == s@,
{
    let mut chars: Vec<char> = Vec::new();
    for c in it: s.chars()
        invariant
            it.seq() == s@,
            chars@ == s@.take(it.index() as int),
    {
        chars.push(c);
        assert(s@.take(it.index() + 1) =~= s@.take(it.index() as int).push(c));
    }
    assert(s@.take(s@.len() as int) =~= s@);
    chars
}

proof fn lemma_prefix_value(s: Seq<char>, i: int)
    requires
        0 <= i <= s.len(),
        all_digits(s),
    ensures
        decimal_value(s.take(i)) <= decimal_value(s),
    decreases s.len(),
{
    if i < s.len() {
        assert(s.drop_last().take(i) =~= s.take(i));
        lemma_prefix_value(s.drop_last(), i);
    } else {
        assert(s.take(i) =~= s);
    }
}

/// The number that the characters from `from` up to `to` denote.
fn number_in(chars: &Vec<char>, from: usize, to: usize) -> (number: Option<u64>)
    requires
        from <= to <= chars@.len(),
    ensures
        number == parse_number(chars@.subrange(from as int, to as int)),
{
    let ghost s = chars@.subrange(from as int, to as int);
    let mut i: usize = from;
    if from < to && chars[from] == '+' {
        i = from + 1;
    }
    let ghost t = chars@.subrange(i as int, to as int);
    assert(t =~= if s.len() > 0 && s[0] == '+' {
        s.skip(1)
    } else {
        s
    });
    if i == to {
        return None;
    }
    let ghost first = i as int;
    let mut acc: u64 = 0;
    assert(t.take(0) =~= Seq::empty());
    while i < to
        invariant
            from <= first <= i <= to <= chars@.len(),
            t == chars@.subrange(first, to as int),
            s == chars@.subrange(from as int, to as int),
            from <= to,
            t.len() > 0,
            t == if s.len() > 0 && s[0] == '+' {
                s.skip(1)
            } else {
                s
            },
            all_digits(t.take(i - first)),
            acc == decimal_value(t.take(i - first)),
        decreases to - i,
    {
        let c: char = chars[i];
        assert(t[i - first] == c);
        let code: u32 = c as u32;
        if code < 48 || code > 57 {
            return None;
        }
        let d: u64 = (code - 48) as u64;
        assert(t.take(i - first + 1) =~= t.take(i - first).push(c));
        assert(t.take(i - first + 1).drop_last() =~= t.take(i - first));
        assert(decimal_value(t.take(i - first + 1)) == acc * 10 + d);
        if acc > (u64::MAX - d) / 10 {
            proof {
                if all_digits(t) {
                    lemma_prefix_value(t, i - first + 1);
                }
            }
            return None;
        }
        acc = acc * 10 + d;
        i += 1;
    }
    assert(t.take(i - first) =~= t);
    Some(acc)
}

/// Whether the characters of `part` stand in `chars` at `at`.
fn stands_at(chars: &Vec<char>, at: usize, part: &Vec<char>) -> (r: bool)
    requires
        at + part@.len() <= chars@.len(),
    ensures
        r == (chars@.subrange(at as int, at + part@.len()) == part@),
{
    let ghost window = chars@.subrange(at as int, at + part@.len());
    let n: usize = chars.len();
    let mut i: usize = 0;
    while i < part.len()
        invariant
            i <= part@.len(),
            at + part@.len() <= chars@.len() == n,
            window == chars@.subrange(at as int, at + part@.len()),
            forall|j: int| 0 <= j < i ==> window[j] == part@[j],
        decreases part@.len() - i,
    {
        if chars[at + i] != part[i] {
            assert(window[i as int] != part@[i as int]);
            return false;
        }
        i += 1;
    }
    assert(window =~= part@);
    true
}

/// The generation that a manifest's name carries, 0 where it carries none.
pub fn manifest_generation(name: &str) -> (generation: u64)
    ensures
        generation == generation_of(name@),
{
    let chars: Vec<char> = chars_of(name);
    let prefix: Vec<char> = chars_of("MANIFEST-");
    assert(chars@.subrange(0, prefix@.len() as int) =~= chars@.take(prefix@.len() as int));
    if prefix.len() <= chars.len() && stands_at(&chars, 0, &prefix) {
        assert(chars@.subrange(prefix@.len() as int, chars@.len() as int) =~= chars@.skip(
            prefix@.len() as int,
        ));
        match number_in(&chars, prefix.len(), chars.len()) {
            Some(g) => g,
            None => 0,
        }
    } else {
        0
    }
}

/// Whether a file is the hot snapshot or the manifest of a generation older than
/// `keep`, so that it may be deleted once `keep` is committed.
pub fn superseded(name: &str, keep: u64) -> (r: bool)
    ensures
        r == is_superseded(name@, keep),
{
    let chars: Vec<char> = chars_of(name);
    let hot: Vec<char> = chars_of("hot-");
    let tail: Vec<char> = chars_of(".tvim");
    let manifest: Vec<char> = chars_of("MANIFEST-");
    let n: usize = chars.len();
    let mut number: Option<u64> = None;
    let mut is_snapshot: bool = false;
    assert(chars@.subrange(0, hot@.len() as int) =~= chars@.take(hot@.len() as int));
    assert(chars@.subrange(0, manifest@.len() as int) =~= chars@.take(manifest@.len() as int));
    if hot.len() <= n && stands_at(&chars, 0, &hot) {
        let ghost rest = chars@.skip(hot@.len() as int);
        if tail.len() <= n - hot.len() {
            assert(chars@.subrange(n - tail@.len(), n as int) =~= rest.skip(
                rest.len() - tail@.len(),
            ));
            assert(chars@.subrange(hot@.len() as int, n - tail@.len()) =~= rest.take(
                rest.len() - tail@.len(),
            ));
            if stands_at(&chars, n - tail.len(), &tail) {
                is_snapshot = true;
                number = number_in(&chars, hot.len(), n - tail.len());
            }
        }
    }
    if !is_snapshot && manifest.len() <= n && stands_at(&chars, 0, &manifest) {
        assert(chars@.subrange(manifest@.len() as int, n as int) =~= chars@.skip(
            manifest@.len() as int,
        ));
        number = number_in(&chars, manifest.len(), n);
    }
    match number {
        Some(g) => g < keep,
        None => false,
    }
}

fn space(c: char) -> (r: bool)
    ensures
        r == is_space(c),
{
    let n: u32 = c as u32;
    (0x9 <= n && n <= 0xD) || n == 0x20 || n == 0x85 || n == 0xA0 || n == 0x1680 || (0x2000 <= n
        && n <= 0x200A) || n == 0x2028 || n == 0x2029 || n == 0x202F || n == 0x205F || n == 0x3000
}

/// The name of the active manifest, given what the `CURRENT` file holds.
pub fn active_manifest(current: &str) -> (name: String)
    ensures
        name@ == trimmed(current@),
{
    let chars: Vec<char> = chars_of(current);
    let mut from: usize = 0;
    let mut to: usize = chars.len();
    assert(chars@.subrange(0, chars@.len() as int) =~= chars@);
    while from < to && space(chars[from])
        invariant
            from <= to == chars@.len(),
            trimmed(chars@) == trimmed(chars@.subrange(from as int, to as int)),
        decreases to - from,
    {
        let ghost t = chars@.subrange(from as int, to as int);
        assert(t[0] == chars@[from as int]);
        assert(t.drop_first() =~= chars@.subrange(from + 1, to as int));
        from += 1;
    }
    while from < to && space(chars[to - 1])
        invariant
            from <= to <= chars@.len(),
            from < to ==> !is_space(chars@[from as int]),
            trimmed(chars@) == trimmed(chars@.subrange(from as int, to as int)),
        decreases to - from,
    {
        let ghost t = chars@.subrange(from as int, to as int);
        assert(t[0] == chars@[from as int]);
        assert(t.last() == chars@[to - 1]);
        assert(t.drop_last() =~= chars@.subrange(from as int, to - 1));
        to -= 1;
    }
    proof {
        let t = chars@.subrange(from as int, to as int);
        if t.len() > 0 {
            assert(t[0] == chars@[from as int]);
            assert(t.last() == chars@[to - 1]);
        }
    }
    current.substring_char(from, to).to_owned()
}

// ---- Laws of the names ----

proof fn lemma_padded(n: nat, width: nat)
    ensures
        all_digits(padded(n, width)),
        padded(n, width).len() > 0,
        decimal_value(padded(n, width)) == n,
    decreases n + width,
{
    let s = padded(n, width);
    if n < 10 && width <= 1 {
        assert(s.drop_last() =~= Seq::empty());
        assert(decimal_value(s.drop_last()) == 0);
    } else {
        let w: nat = if width == 0 {
            0
        } else {
            (width - 1) as nat
        };
        lemma_padded(n / 10, w);
        assert(s.drop_last() =~= padded(n / 10, w));
    }
}

proof fn lemma_padded_parses(n: u64)
    ensures
        parse_number(padded(n as nat, 8)) == Some(n),
{
    lemma_padded(n as nat, 8);
    assert(is_digit(padded(n as nat, 8)[0]));
}

/// What follows the prefix of a concatenation is its tail.
proof fn lemma_after_prefix(p: Seq<char>, t: Seq<char>)
    ensures
        after_prefix(p + t, p) == Some(t),
{
    assert((p + t).take(p.len() as int) =~= p);
    assert((p + t).skip(p.len() as int) =~= t);
}

proof fn lemma_before_suffix(t: Seq<char>, s: Seq<char>)
    ensures
        before_suffix(t + s, s) == Some(t),
{
    assert((t + s).skip((t + s).len() - s.len()) =~= s);
    assert((t + s).take((t + s).len() - s.len()) =~= t);
}

/// The four kinds of names differ in their first character.
proof fn lemma_first_chars(n: nat)
    ensures
        segment_name(n).len() > 0,
        segment_name(n)[0] == 's',
        hot_name(n).len() > 0,
        hot_name(n)[0] == 'h',
        manifest_name(n).len() > 0,
        manifest_name(n)[0] == 'M',
        current_name().len() > 0,
        current_name()[0] == 'C',
        "hot-"@.len() > 0,
        "hot-"@[0] == 'h',
        "MANIFEST-"@.len() > 0,
        "MANIFEST-"@[0] == 'M',
        "seg-"@.len() > 0,
        "seg-"@[0] == 's',
{
    reveal_strlit("seg-");
    reveal_strlit("hot-");
    reveal_strlit("MANIFEST-");
    reveal_strlit("CURRENT");
}

/// A name that begins with another character has not this prefix.
proof fn lemma_other_prefix(s: Seq<char>, p: Seq<char>)
    requires
        s.len() > 0,
        p.len() > 0,
        s[0] != p[0],
    ensures
        after_prefix(s, p) is None,
{
    if p.len() <= s.len() && s.take(p.len() as int) == p {
        assert(s.take(p.len() as int)[0] == s[0]);
    }
}

/// A generation can be read back out of its manifest's name, also out of a
/// `CURRENT` file that holds that name.
pub proof fn law_manifest_name_carries_generation(g: u64)
    ensures
        generation_of(manifest_name(g as nat)) == g,
        trimmed(manifest_name(g as nat)) == manifest_name(g as nat),
{
    lemma_after_prefix("MANIFEST-"@, padded(g as nat, 8));
    lemma_padded_parses(g);
    lemma_padded(g as nat, 8);
    lemma_first_chars(g as nat);
    let name = manifest_name(g as nat);
    assert(name.last() == padded(g as nat, 8).last());
    assert(is_digit(name.last()));
}

/// A generation's own files carry its number; a sealed segment's file and
/// `CURRENT` carry none.
pub proof fn law_names_carry_generations(g: u64, n: nat)
    ensures
        file_generation(hot_name(g as nat)) == Some(g),
        file_generation(manifest_name(g as nat)) == Some(g),
        file_generation(segment_name(n)) is None,
        file_generation(current_name()) is None,
{
    lemma_first_chars(g as nat);
    lemma_first_chars(n);
    lemma_padded_parses(g);
    assert(hot_name(g as nat) =~= "hot-"@ + (padded(g as nat, 8) + ".tvim"@));
    lemma_after_prefix("hot-"@, padded(g as nat, 8) + ".tvim"@);
    lemma_before_suffix(padded(g as nat, 8), ".tvim"@);
    lemma_after_prefix("MANIFEST-"@, padded(g as nat, 8));
    lemma_other_prefix(manifest_name(g as nat), "hot-"@);
    lemma_other_prefix(segment_name(n), "hot-"@);
    lemma_other_prefix(segment_name(n), "MANIFEST-"@);
    lemma_other_prefix(current_name(), "hot-"@);
    lemma_other_prefix(current_name(), "MANIFEST-"@);
}

/// Collecting what `keep` supersedes never touches a sealed segment's file,
/// `CURRENT`, or the files of `keep` itself or of a later generation.
pub proof fn law_collection_spares_the_committed(g: u64, keep: u64, n: nat)
    requires
        keep <= g,
    ensures
        !is_superseded(hot_name(g as nat), keep),
        !is_superseded(manifest_name(g as nat), keep),
        !is_superseded(segment_name(n), keep),
        !is_superseded(current_name(), keep),
{
    law_names_carry_generations(g, n);
}

/// Collecting what `keep` supersedes takes the snapshot and the manifest of every
/// older generation.
pub proof fn law_collection_takes_older_generations(g: u64, keep: u64)
    requires
        g < keep,
    ensures
        is_superseded(hot_name(g as nat), keep),
        is_superseded(manifest_name(g as nat), keep),
{
    law_names_carry_generations(g, 0);
}

/// No two files of a store share a name.
pub proof fn law_names_are_distinct(m: nat, n: nat)
    ensures
        segment_name(m) == segment_name(n) ==> m == n,
        hot_name(m) == hot_name(n) ==> m == n,
        manifest_name(m) == manifest_name(n) ==> m == n,
        segment_name(m) != hot_name(n),
        segment_name(m) != manifest_name(n),
        segment_name(m) != current_name(),
        hot_name(m) != manifest_name(n),
        hot_name(m) != current_name(),
        manifest_name(m) != current_name(),
{
    lemma_first_chars(m);
    lemma_first_chars(n);
    lemma_padded(m, 8);
    lemma_padded(n, 8);
    if segment_name(m) == segment_name(n) {
        lemma_before_suffix("seg-"@ + padded(m, 8), ".tvim"@);
        lemma_before_suffix("seg-"@ + padded(n, 8), ".tvim"@);
        lemma_after_prefix("seg-"@, padded(m, 8));
        lemma_after_prefix("seg-"@, padded(n, 8));
    }
    if hot_name(m) == hot_name(n) {
        lemma_before_suffix("hot-"@ + padded(m, 8), ".tvim"@);
        lemma_before_suffix("hot-"@ + padded(n, 8), ".tvim"@);
        lemma_after_prefix("hot-"@, padded(m, 8));
        lemma_after_prefix("hot-"@, padded(n, 8));
    }
    if manifest_name(m) == manifest_name(n) {
        lemma_after_prefix("MANIFEST-"@, padded(m, 8));
        lemma_after_prefix("MANIFEST-"@, padded(n, 8));
    }
}

/// What a string of digits denotes: the characters `0` to `9` alone are digits, no digits
/// denote 0, and one more digit makes ten times as much, plus that digit.
pub proof fn law_digits_denote_a_decimal_number(s: Seq<char>, c: char)
    ensures
        all_digits(s) <==> forall|i: int|
            0 <= i < s.len() ==> 48 <= (#[trigger] s[i]) as u32 <= 57,
        decimal_value(Seq::empty()) == 0,
        48 <= c as u32 <= 57 ==> decimal_value(s.push(c)) == 10 * decimal_value(s) + (c as u32
            - 48),
{
    assert(s.push(c).drop_last() =~= s);
    assert(s.push(c).last() == c);
    if all_digits(s) {
        assert forall|i: int| 0 <= i < s.len() implies 48 <= (#[trigger] s[i]) as u32 <= 57 by {
            assert(is_digit(s[i]));
        }
    }
}

proof fn lemma_padded_len(n: nat, width: nat)
    ensures
        padded(n, width).len() >= 1,
        padded(n, width).len() >= width,
        padded(n, width).len() > width && padded(n, width).len() > 1 ==> padded(n, width)[0]
            != '0',
        width == 0 && n > 0 ==> padded(n, width)[0] != '0',
    decreases n + width,
{
    if !(n < 10 && width <= 1) {
        let w: nat = if width == 0 {
            0
        } else {
            (width - 1) as nat
        };
        lemma_padded_len(n / 10, w);
        assert(padded(n, width)[0] == padded(n / 10, w)[0]);
    }
}

/// The names of a store's files hold their number in decimal, with at least eight digits
/// and no leading zero beyond those, between the words that tell the kinds of files apart.
pub proof fn law_names_hold_their_number(n: nat)
    ensures
        exists|digits: Seq<char>|
            {
                &&& #[trigger] decimal_value(digits) == n
                &&& all_digits(digits)
                &&& digits.len() >= 8
                &&& digits.len() > 8 ==> digits[0] != '0'
                &&& segment_name(n) == "seg-"@ + digits + ".tvim"@
                &&& hot_name(n) == "hot-"@ + digits + ".tvim"@
                &&& manifest_name(n) == "MANIFEST-"@ + digits
            },
        current_name() == "CURRENT"@,
{
    lemma_padded(n, 8);
    lemma_padded_len(n, 8);
    assert(decimal_value(padded(n, 8)) == n);
}

/// A number is read back out of a name however many digits it has, also where a plus sign
/// precedes it.
pub proof fn law_a_number_is_read_back(digits: Seq<char>, g: u64, keep: u64)
    requires
        digits.len() > 0,
        all_digits(digits),
        decimal_value(digits) == g,
    ensures
        generation_of("MANIFEST-"@ + digits) == g,
        generation_of("MANIFEST-"@ + (seq!['+'] + digits)) == g,
        file_generation("MANIFEST-"@ + digits) == Some(g),
        file_generation("MANIFEST-"@ + (seq!['+'] + digits)) == Some(g),
        file_generation("hot-"@ + (digits + ".tvim"@)) == Some(g),
        file_generation("hot-"@ + (seq!['+'] + digits + ".tvim"@)) == Some(g),
        is_superseded("MANIFEST-"@ + digits, keep) <==> g < keep,
        is_superseded("hot-"@ + (digits + ".tvim"@), keep) <==> g < keep,
{
    let signed = seq!['+'] + digits;
    assert(is_digit(digits[0]));
    assert(signed.skip(1) =~= digits);
    assert(parse_number(digits) == Some(g));
    assert(parse_number(signed) == Some(g));
    lemma_first_chars(0);
    lemma_after_prefix("MANIFEST-"@, digits);
    lemma_after_prefix("MANIFEST-"@, signed);
    lemma_other_prefix("MANIFEST-"@ + digits, "hot-"@);
    lemma_other_prefix("MANIFEST-"@ + signed, "hot-"@);
    lemma_after_prefix("hot-"@, digits + ".tvim"@);
    lemma_after_prefix("hot-"@, signed + ".tvim"@);
    lemma_before_suffix(digits, ".tvim"@);
    lemma_before_suffix(signed, ".tvim"@);
}

/// Whether `name` holds the digits between `before` and `after`, with or without a plus
/// sign.
pub open spec fn holds_digits(
    name: Seq<char>,
    before: Seq<char>,
    digits: Seq<char>,
    after: Seq<char>,
) -> bool {
    &&& digits.len() > 0
    &&& all_digits(digits)
    &&& name == before + digits + after || name == before + seq!['+'] + digits + after
}

proof fn lemma_parsed(t: Seq<char>, g: u64) -> (digits: Seq<char>)
    requires
        parse_number(t) == Some(g),
    ensures
        digits.len() > 0,
        all_digits(digits),
        decimal_value(digits) == g,
        t == digits || t == seq!['+'] + digits,
{
    if t.len() > 0 && t[0] == '+' {
        assert(t =~= seq!['+'] + t.skip(1));
        t.skip(1)
    } else {
        t
    }
}

/// No other name carries a generation: only a hot snapshot's or a manifest's does, and only
/// a manifest's is that of an active manifest.
pub proof fn law_no_other_name_carries_a_generation(name: Seq<char>)
    ensures
        file_generation(name) matches Some(g) ==> exists|digits: Seq<char>|
            {
                &&& #[trigger] decimal_value(digits) == g
                &&& holds_digits(name, "hot-"@, digits, ".tvim"@) || holds_digits(
                    name,
                    "MANIFEST-"@,
                    digits,
                    Seq::empty(),
                )
            },
        generation_of(name) != 0 ==> exists|digits: Seq<char>|
            {
                &&& #[trigger] decimal_value(digits) == generation_of(name)
                &&& holds_digits(name, "MANIFEST-"@, digits, Seq::empty())
            },
{
    if let Some(t) = after_prefix(name, "MANIFEST-"@) {
        assert(name =~= "MANIFEST-"@ + t);
        if let Some(g) = parse_number(t) {
            let digits = lemma_parsed(t, g);
            assert("MANIFEST-"@ + digits + Seq::empty() =~= "MANIFEST-"@ + digits);
            assert("MANIFEST-"@ + seq!['+'] + digits + Seq::empty() =~= "MANIFEST-"@ + (seq!['+']
                + digits));
            assert(holds_digits(name, "MANIFEST-"@, digits, Seq::empty()));
        }
    }
    if let Some(rest) = after_prefix(name, "hot-"@) {
        assert(name =~= "hot-"@ + rest);
        if let Some(t) = before_suffix(rest, ".tvim"@) {
            assert(rest =~= t + ".tvim"@);
            if let Some(g) = parse_number(t) {
                let digits = lemma_parsed(t, g);
                assert("hot-"@ + digits + ".tvim"@ =~= "hot-"@ + (digits + ".tvim"@));
                assert("hot-"@ + seq!['+'] + digits + ".tvim"@ =~= "hot-"@ + (seq!['+'] + digits
                    + ".tvim"@));
                assert(holds_digits(name, "hot-"@, digits, ".tvim"@));
            }
        }
    }
}

/// Trimming takes off white space at the two ends and nothing else, and leaves none there.
pub proof fn law_trimming_takes_off_white_space_alone(s: Seq<char>) -> (ends: (int, int))
    ensures
        0 <= ends.0 <= ends.1 <= s.len(),
        trimmed(s) == s.subrange(ends.0, ends.1),
        forall|i: int| 0 <= i < ends.0 ==> is_space(#[trigger] s[i]),
        forall|i: int| ends.1 <= i < s.len() ==> is_space(#[trigger] s[i]),
        trimmed(s).len() > 0 ==> !is_space(trimmed(s)[0]) && !is_space(trimmed(s).last()),
    decreases s.len(),
{
    if s.len() > 0 && is_space(s[0]) {
        let inner = s.drop_first();
        let (from, to) = law_trimming_takes_off_white_space_alone(inner);
        assert(inner.subrange(from, to) =~= s.subrange(from + 1, to + 1));
        assert forall|i: int| 0 <= i < from + 1 implies is_space(#[trigger] s[i]) by {
            if i > 0 {
                assert(is_space(inner[i - 1]));
            }
        }
        assert forall|i: int| to + 1 <= i < s.len() implies is_space(#[trigger] s[i]) by {
            assert(is_space(inner[i - 1]));
        }
        (from + 1, to + 1)
    } else if s.len() > 0 && is_space(s.last()) {
        let inner = s.drop_last();
        let (from, to) = law_trimming_takes_off_white_space_alone(inner);
        assert(inner.subrange(from, to) =~= s.subrange(from, to));
        assert forall|i: int| 0 <= i < from implies is_space(#[trigger] s[i]) by {
            assert(is_space(inner[i]));
        }
        assert forall|i: int| to <= i < s.len() implies is_space(#[trigger] s[i]) by {
            if i < inner.len() {
                assert(is_space(inner[i]));
            }
        }
        (from, to)
    } else {
        assert(s.subrange(0, s.len() as int) =~= s);
        (0int, s.len() as int)
    }
}

/// What counts as white space: tab, line feed, vertical tab, form feed, carriage return,
/// space, and the spaces beyond ASCII. No printable ASCII character does, so that a name of
/// a file is never cut short.
pub proof fn law_white_space_is_that_of_unicode(c: char)
    ensures
        c as u32 <= 0x7F ==> (is_space(c) <==> c == '\t' || c == '\n' || c == '\u{b}' || c
            == '\u{c}' || c == '\r' || c == ' '),
        c as u32 > 0x7F ==> (is_space(c) <==> c == '\u{85}' || c == '\u{a0}' || c == '\u{1680}'
            || '\u{2000}' as u32 <= c as u32 <= '\u{200a}' as u32 || c == '\u{2028}' || c
            == '\u{2029}' || c == '\u{202f}' || c == '\u{205f}' || c == '\u{3000}'),
        0x21 <= c as u32 <= 0x7E ==> !is_space(c),
{
}

} // verus!
