//! Text as sequences of characters: trimming, splitting, and decimal numbers.

use vstd::prelude::*;
use vstd::string::*;

verus! {

/// The characters with Unicode's White_Space property.
pub open spec fn white(c: char) -> bool {
    let u = c as u32;
    ||| 0x09 <= u <= 0x0D
    ||| u == 0x20
    ||| u == 0x85
    ||| u == 0xA0
    ||| u == 0x1680
    ||| 0x2000 <= u <= 0x200A
    ||| u == 0x2028
    ||| u == 0x2029
    ||| u == 0x202F
    ||| u == 0x205F
    ||| u == 0x3000
}

/// The text from its first character that is not white space on.
pub open spec fn trim_start(s: Seq<char>) -> Seq<char>
    decreases s.len(),
{
    if s.len() > 0 && white(s[0]) {
        trim_start(s.subrange(1, s.len() as int))
    } else {
        s
    }
}

/// The text up to its last character that is not white space.
pub open spec fn trim_end(s: Seq<char>) -> Seq<char>
    decreases s.len(),
{
    if s.len() > 0 && white(s.last()) {
        trim_end(s.drop_last())
    } else {
        s
    }
}

/// The text without the white space around it.
pub open spec fn trimmed(s: Seq<char>) -> Seq<char> {
    trim_end(trim_start(s))
}

/// An ASCII capital's small letter; any other character itself.
pub open spec fn ascii_lower(c: char) -> char {
    if 'A' <= c && c <= 'Z' {
        ((c as u32 + 32) as u32) as char
    } else {
        c
    }
}

/// The text with its ASCII capitals made small.
pub open spec fn lowered(s: Seq<char>) -> Seq<char> {
    s.map_values(|c: char| ascii_lower(c))
}

/// Where `c` first occurs in `s`; the length, if it does not.
pub open spec fn find(s: Seq<char>, c: char) -> int
    decreases s.len(),
{
    if s.len() == 0 || s[0] == c {
        0
    } else {
        1 + find(s.subrange(1, s.len() as int), c)
    }
}

/// The pieces of `s` between the occurrences of `c`; one piece, if there is none.
pub open spec fn split(s: Seq<char>, c: char) -> Seq<Seq<char>>
    decreases s.len(),
{
    let i = find(s, c);
    if 0 <= i < s.len() {
        seq![s.subrange(0, i)] + split(s.subrange(i + 1, s.len() as int), c)
    } else {
        seq![s]
    }
}

/// Where the first character that is (`is_white`) or is not white space stands; the
/// length, if there is none.
pub open spec fn find_white(s: Seq<char>, is_white: bool) -> int
    decreases s.len(),
{
    if s.len() == 0 || white(s[0]) == is_white {
        0
    } else {
        1 + find_white(s.subrange(1, s.len() as int), is_white)
    }
}

/// The words of `s`: its longest pieces without white space.
pub open spec fn words(s: Seq<char>) -> Seq<Seq<char>>
    decreases s.len(),
{
    let t = trim_start(s);
    let i = find_white(t, true);
    if t.len() == 0 || t.len() > s.len() || i <= 0 || i > t.len() {
        Seq::empty()
    } else {
        seq![t.subrange(0, i)] + words(t.subrange(i, t.len() as int))
    }
}

pub open spec fn is_digit(c: char) -> bool {
    '0' <= c && c <= '9'
}

pub open spec fn all_digits(s: Seq<char>) -> bool {
    forall|i: int| 0 <= i < s.len() ==> is_digit(#[trigger] s[i])
}

/// The number that decimal digits stand for.
pub open spec fn decimal_value(s: Seq<char>) -> nat
    decreases s.len(),
{
    if s.len() == 0 {
        0
    } else {
        decimal_value(s.drop_last()) * 10 + (s.last() as u32 - '0' as u32) as nat
    }
}

/// The digits of a number with an optional plus sign.
pub open spec fn unsigned(s: Seq<char>) -> Seq<char> {
    if s.len() > 0 && s[0] == '+' {
        s.subrange(1, s.len() as int)
    } else {
        s
    }
}

/// A decimal number up to `max`: digits, at least one, with an optional plus sign.
pub open spec fn parse_decimal(s: Seq<char>, max: nat) -> Option<nat> {
    let d = unsigned(s);
    if d.len() > 0 && all_digits(d) && decimal_value(d) <= max {
        Some(decimal_value(d))
    } else {
        None
    }
}

/// The digit for a number below ten.
pub open spec fn digit(n: nat) -> char {
    (('0' as u32 + n) as u32) as char
}

/// A number in decimal.
pub open spec fn decimal(n: nat) -> Seq<char>
    decreases n,
{
    if n < 10 {
        seq![digit(n)]
    } else {
        decimal(n / 10).push(digit(n % 10))
    }
}

/// The views of some strings.
pub open spec fn texts(s: Seq<String>) -> Seq<Seq<char>> {
    s.map_values(|x: String| x@)
}

/// The view of an optional string.
pub open spec fn opt_text(value: Option<String>) -> Option<Seq<char>> {
    match value {
        Some(s) => Some(s@),
        None => None,
    }
}

/// The view of an optional string slice.
pub open spec fn opt_view(raw: Option<&str>) -> Option<Seq<char>> {
    match raw {
        Some(s) => Some(s@),
        None => None,
    }
}

/// `String::push`: the character is added at the end.
pub assume_specification[ String::push ](s: &mut String, c: char)
    ensures
        final(s)@ == old(s)@.push(c),
;

/// The characters of a string.
pub fn chars_of(s: &str) -> (r: Vec<char>)
    ensures
        r@ == s@,
{
    let mut r: Vec<char> = Vec::new();
    for c in it: s.chars()
        invariant
            r@ == it.seq().take(it.index() as int),
            it.seq() == s@,
    {
        r.push(c);
    }
    r
}

/// The string of some characters.
pub fn string_of(s: &[char]) -> (r: String)
    ensures
        r@ == s@,
{
    let mut r: String = String::new();
    let mut i: usize = 0;
    while i < s.len()
        invariant
            i <= s@.len(),
            r@ == s@.take(i as int),
        decreases s.len() - i,
    {
        r.push(s[i]);
        i = i + 1;
        assert(s@.take(i as int) =~= s@.take(i - 1).push(s@[i - 1]));
    }
    assert(s@.take(i as int) =~= s@);
    r
}

pub fn is_white(c: char) -> (r: bool)
    ensures
        r == white(c),
{
    let u: u32 = c as u32;
    (0x09 <= u && u <= 0x0D) || u == 0x20 || u == 0x85 || u == 0xA0 || u == 0x1680 || (0x2000 <= u && u
        <= 0x200A) || u == 0x2028 || u == 0x2029 || u == 0x202F || u == 0x205F || u == 0x3000
}

/// Whether two texts are the same.
pub fn same(a: &[char], b: &[char]) -> (r: bool)
    ensures
        r == (a@ == b@),
{
    if a.len() != b.len() {
        return false;
    }
    let mut i: usize = 0;
    while i < a.len()
        invariant
            a@.len() == b@.len(),
            i <= a@.len(),
            forall|j: int| 0 <= j < i ==> a@[j] == b@[j],
        decreases a.len() - i,
    {
        if a[i] != b[i] {
            return false;
        }
        i = i + 1;
    }
    assert(a@ =~= b@);
    true
}

/// Whether the text is that of `b`.
pub fn is_text(a: &[char], b: &str) -> (r: bool)
    ensures
        r == (a@ == b@),
{
    let b = chars_of(b);
    same(a, &b)
}

pub fn skip_white<'a>(s: &'a [char]) -> (r: &'a [char])
    ensures
        r@ == trim_start(s@),
{
    let n: usize = s.len();
    let mut i: usize = 0;
    assert(s@.subrange(0, n as int) =~= s@);
    while i < n && is_white(s[i])
        invariant
            n == s@.len(),
            i <= n,
            trim_start(s@) == trim_start(s@.subrange(i as int, n as int)),
        decreases n - i,
    {
        assert(s@.subrange(i as int, n as int).subrange(1, n - i) =~= s@.subrange(i + 1, n as int));
        i = i + 1;
    }
    &s[i..n]
}

/// The text without the white space around it.
pub fn trim<'a>(s: &'a [char]) -> (r: &'a [char])
    ensures
        r@ == trimmed(s@),
{
    let s: &'a [char] = skip_white(s);
    let mut n: usize = s.len();
    assert(s@.subrange(0, n as int) =~= s@);
    while n > 0 && is_white(s[n - 1])
        invariant
            n <= s@.len(),
            trim_end(s@) == trim_end(s@.subrange(0, n as int)),
        decreases n,
    {
        assert(s@.subrange(0, n as int).drop_last() =~= s@.subrange(0, n - 1));
        n = n - 1;
    }
    &s[0..n]
}

pub fn lower_char(c: char) -> (r: char)
    ensures
        r == ascii_lower(c),
{
    match c {
        'A' => 'a',
        'B' => 'b',
        'C' => 'c',
        'D' => 'd',
        'E' => 'e',
        'F' => 'f',
        'G' => 'g',
        'H' => 'h',
        'I' => 'i',
        'J' => 'j',
        'K' => 'k',
        'L' => 'l',
        'M' => 'm',
        'N' => 'n',
        'O' => 'o',
        'P' => 'p',
        'Q' => 'q',
        'R' => 'r',
        'S' => 's',
        'T' => 't',
        'U' => 'u',
        'V' => 'v',
        'W' => 'w',
        'X' => 'x',
        'Y' => 'y',
        'Z' => 'z',
        _ => c,
    }
}

/// The text with its ASCII capitals made small.
pub fn lower(s: &[char]) -> (r: Vec<char>)
    ensures
        r@ == lowered(s@),
{
    let mut r: Vec<char> = Vec::new();
    let mut i: usize = 0;
    while i < s.len()
        invariant
            i <= s@.len(),
            r@ =~= lowered(s@.take(i as int)),
        decreases s.len() - i,
    {
        r.push(lower_char(s[i]));
        i = i + 1;
    }
    assert(s@.take(i as int) =~= s@);
    r
}

proof fn lemma_find_range(s: Seq<char>, c: char)
    ensures
        0 <= find(s, c) <= s.len(),
        find(s, c) < s.len() ==> s[find(s, c)] == c,
        forall|i: int| 0 <= i < find(s, c) ==> s[i] != c,
    decreases s.len(),
{
    if s.len() > 0 && s[0] != c {
        let t = s.subrange(1, s.len() as int);
        lemma_find_range(t, c);
        assert forall|i: int| 0 <= i < find(s, c) implies s[i] != c by {
            if i > 0 {
                assert(t[i - 1] == s[i]);
            }
        }
    }
}

/// Where `c` first occurs.
pub fn position(s: &[char], c: char) -> (r: Option<usize>)
    ensures
        match r {
            Some(i) => i == find(s@, c) && i < s@.len(),
            None => find(s@, c) == s@.len(),
        },
{
    proof {
        lemma_find_range(s@, c);
    }
    let mut i: usize = 0;
    while i < s.len()
        invariant
            i <= s@.len(),
            forall|j: int| 0 <= j < i ==> s@[j] != c,
        decreases s.len() - i,
    {
        if s[i] == c {
            proof {
                lemma_find_range(s@, c);
            }
            return Some(i);
        }
        i = i + 1;
    }
    None
}

/// The contents of some slices.
pub open spec fn views(s: Seq<&[char]>) -> Seq<Seq<char>> {
    s.map_values(|x: &[char]| x@)
}

/// The pieces between the occurrences of `c`.
pub fn split_on<'a>(s: &'a [char], c: char) -> (r: Vec<&'a [char]>)
    ensures
        views(r@) == split(s@, c),
{
    let mut r: Vec<&'a [char]> = Vec::new();
    let mut rest: &'a [char] = s;
    assert(views(r@) + split(rest@, c) =~= split(s@, c));
    loop
        invariant_except_break
            views(r@) + split(rest@, c) == split(s@, c),
        ensures
            views(r@) == split(s@, c),
        decreases rest@.len(),
    {
        let ghost before = r@;
        let ghost left = rest@;
        let n: usize = rest.len();
        match position(rest, c) {
            Some(i) => {
                let piece: &'a [char] = &rest[0..i];
                r.push(piece);
                rest = &rest[i + 1..n];
                proof {
                    assert(views(r@) =~= views(before).push(left.subrange(0, i as int)));
                    assert(views(r@) + split(rest@, c) =~= views(before) + split(left, c));
                }
            },
            None => {
                r.push(rest);
                proof {
                    assert(views(r@) =~= views(before).push(left));
                    assert(views(r@) =~= views(before) + split(left, c));
                }
                break;
            },
        }
    }
    r
}

proof fn lemma_trim_start(s: Seq<char>)
    ensures
        trim_start(s).len() <= s.len(),
        trim_start(s).len() > 0 ==> !white(trim_start(s)[0]),
    decreases s.len(),
{
    if s.len() > 0 && white(s[0]) {
        lemma_trim_start(s.subrange(1, s.len() as int));
    }
}

proof fn lemma_find_white(s: Seq<char>, is_white: bool)
    ensures
        0 <= find_white(s, is_white) <= s.len(),
        find_white(s, is_white) < s.len() ==> white(s[find_white(s, is_white)]) == is_white,
        forall|i: int| 0 <= i < find_white(s, is_white) ==> white(s[i]) != is_white,
    decreases s.len(),
{
    if s.len() > 0 && white(s[0]) != is_white {
        let t = s.subrange(1, s.len() as int);
        lemma_find_white(t, is_white);
        assert forall|i: int| 0 <= i < find_white(s, is_white) implies white(s[i]) != is_white by {
            if i > 0 {
                assert(t[i - 1] == s[i]);
            }
        }
    }
}

/// The words of a text.
pub fn split_words<'a>(s: &'a [char]) -> (r: Vec<&'a [char]>)
    ensures
        views(r@) == words(s@),
{
    let mut r: Vec<&'a [char]> = Vec::new();
    let mut rest: &'a [char] = s;
    assert(views(r@) + words(rest@) =~= words(s@));
    loop
        invariant_except_break
            views(r@) + words(rest@) == words(s@),
        ensures
            views(r@) == words(s@),
        decreases rest@.len(),
    {
        let ghost before = r@;
        let ghost left = rest@;
        proof {
            lemma_trim_start(left);
        }
        let t: &'a [char] = skip_white(rest);
        proof {
            lemma_find_white(t@, true);
        }
        if t.len() == 0 {
            assert(views(r@) + words(rest@) =~= views(r@));
            break;
        }
        let mut i: usize = 0;
        while i < t.len() && !is_white(t[i])
            invariant
                i <= t@.len(),
                forall|j: int| 0 <= j < i ==> !white(t@[j]),
            decreases t.len() - i,
        {
            i = i + 1;
        }
        proof {
            lemma_find_white(t@, true);
            assert(i == find_white(t@, true));
        }
        let word: &'a [char] = &t[0..i];
        r.push(word);
        rest = &t[i..t.len()];
        proof {
            assert(views(r@) =~= views(before).push(t@.subrange(0, i as int)));
            assert(views(r@) + words(rest@) =~= views(before) + words(left));
        }
    }
    r
}

/// Dropping trailing digits does not raise the value.
proof fn lemma_value_prefix(s: Seq<char>, i: int)
    requires
        all_digits(s),
        0 <= i <= s.len(),
    ensures
        decimal_value(s.take(i)) <= decimal_value(s),
    decreases s.len() - i,
{
    if i == s.len() {
        assert(s.take(i) =~= s);
    } else {
        lemma_value_prefix(s, i + 1);
        assert(s.take(i + 1).drop_last() =~= s.take(i));
        assert(is_digit(s[i]));
    }
}

/// Reads a decimal number up to `max`.
pub fn read_decimal(s: &[char], max: u64) -> (r: Option<u64>)
    ensures
        match r {
            Some(n) => parse_decimal(s@, max as nat) == Some(n as nat),
            None => parse_decimal(s@, max as nat) is None,
        },
{
    let d: &[char] = if s.len() > 0 && s[0] == '+' {
        &s[1..s.len()]
    } else {
        s
    };
    assert(d@ =~= unsigned(s@));
    if d.len() == 0 {
        return None;
    }
    let mut value: u128 = 0;
    let mut i: usize = 0;
    assert(d@.take(0) =~= Seq::<char>::empty());
    while i < d.len()
        invariant
            d@ == unsigned(s@),
            i <= d@.len(),
            all_digits(d@.take(i as int)),
            value == decimal_value(d@.take(i as int)),
            value <= max,
        decreases d.len() - i,
    {
        let c: char = d[i];
        if !('0' <= c && c <= '9') {
            assert(!is_digit(d@[i as int]));
            return None;
        }
        proof {
            assert(d@.take(i + 1).drop_last() =~= d@.take(i as int));
        }
        value = value * 10 + (c as u32 - '0' as u32) as u128;
        if value > max as u128 {
            proof {
                if all_digits(d@) {
                    lemma_value_prefix(d@, i + 1);
                }
            }
            return None;
        }
        proof {
            assert forall|j: int| 0 <= j < i + 1 implies is_digit(#[trigger] d@.take(i + 1)[j]) by {
                if j < i {
                    assert(is_digit(d@.take(i as int)[j]));
                }
            }
        }
        i = i + 1;
    }
    assert(d@.take(i as int) =~= d@);
    Some(value as u64)
}

pub fn digit_char(n: u64) -> (r: char)
    requires
        n < 10,
    ensures
        r == digit(n as nat),
{
    match n {
        0 => '0',
        1 => '1',
        2 => '2',
        3 => '3',
        4 => '4',
        5 => '5',
        6 => '6',
        7 => '7',
        8 => '8',
        _ => '9',
    }
}

/// Appends a number in decimal.
pub fn push_decimal(s: &mut String, n: u64)
    ensures
        final(s)@ == old(s)@ + decimal(n as nat),
    decreases n,
{
    if n >= 10 {
        push_decimal(s, n / 10);
    }
    s.push(digit_char(n % 10));
    assert(s@ =~= old(s)@ + decimal(n as nat));
}

/// Trimming takes white space off both ends, all of it, and nothing else.
pub proof fn trimming_takes_off_both_ends(left: Seq<char>, core: Seq<char>, right: Seq<char>)
    requires
        forall|i: int| 0 <= i < left.len() ==> white(#[trigger] left[i]),
        forall|i: int| 0 <= i < right.len() ==> white(#[trigger] right[i]),
        core.len() > 0 ==> !white(core[0]) && !white(core.last()),
    ensures
        trimmed(left + core + right) == core,
{
    let s = left + core + right;
    lemma_trim_start_of(left, core + right);
    assert(s =~= left + (core + right));
    if core.len() > 0 {
        assert((core + right)[0] == core[0]);
        assert(trim_start(core + right) == core + right);
        lemma_trim_end_of(core, right);
        assert(trim_end(core) == core);
    } else {
        assert(core + right =~= right + core);
        lemma_trim_start_of(right, core);
        assert(trim_start(core) =~= core);
        assert(trim_end(core) =~= core);
    }
}

proof fn lemma_trim_start_of(left: Seq<char>, rest: Seq<char>)
    requires
        forall|i: int| 0 <= i < left.len() ==> white(#[trigger] left[i]),
    ensures
        trim_start(left + rest) == trim_start(rest),
    decreases left.len(),
{
    if left.len() == 0 {
        assert(left + rest =~= rest);
    } else {
        let t = left.subrange(1, left.len() as int);
        assert forall|i: int| 0 <= i < t.len() implies white(#[trigger] t[i]) by {
            assert(t[i] == left[i + 1]);
        }
        lemma_trim_start_of(t, rest);
        assert((left + rest).subrange(1, (left + rest).len() as int) =~= t + rest);
        assert((left + rest)[0] == left[0]);
    }
}

proof fn lemma_trim_end_of(rest: Seq<char>, right: Seq<char>)
    requires
        forall|i: int| 0 <= i < right.len() ==> white(#[trigger] right[i]),
    ensures
        trim_end(rest + right) == trim_end(rest),
    decreases right.len(),
{
    if right.len() == 0 {
        assert(rest + right =~= rest);
    } else {
        let t = right.drop_last();
        lemma_trim_end_of(rest, t);
        assert((rest + right).drop_last() =~= rest + t);
        assert((rest + right).last() == right.last());
    }
}

/// In ASCII, white space is the space and the controls from the tab to the carriage return.
pub proof fn white_space_in_ascii(c: char)
    requires
        (c as u32) < 128,
    ensures
        white(c) <==> c == ' ' || 9 <= c as u32 <= 13,
{
}

/// Lowering goes character by character: the capitals of ASCII become the letters 32
/// places behind them, and everything else stays.
pub proof fn lowering_changes_only_capitals(s: Seq<char>, i: int)
    requires
        0 <= i < s.len(),
    ensures
        lowered(s).len() == s.len(),
        65 <= s[i] as u32 <= 90 ==> lowered(s)[i] as u32 == s[i] as u32 + 32,
        !(65 <= s[i] as u32 <= 90) ==> lowered(s)[i] == s[i],
{
}

/// A character is found where it first stands.
pub proof fn the_first_occurrence_is_found(before: Seq<char>, c: char, after: Seq<char>)
    requires
        !before.contains(c),
    ensures
        find(before + seq![c] + after, c) == before.len(),
        find(before, c) == before.len(),
{
    let s = before + seq![c] + after;
    lemma_find_range(s, c);
    lemma_find_range(before, c);
    assert(s[before.len() as int] == c);
    let i = find(s, c);
    if i < before.len() {
        assert(s[i] == before[i]);
        assert(before.contains(before[i]));
    }
    if find(before, c) < before.len() {
        assert(before.contains(before[find(before, c)]));
    }
}

/// A text is split at each occurrence of a character: the first piece ends at the first
/// one, and the others are the pieces of what is behind it. A text without the character
/// is one piece.
pub proof fn splitting_goes_from_piece_to_piece(piece: Seq<char>, c: char, rest: Seq<char>)
    requires
        !piece.contains(c),
    ensures
        split(piece, c) == seq![piece],
        split(piece + seq![c] + rest, c) == seq![piece] + split(rest, c),
{
    let s = piece + seq![c] + rest;
    the_first_occurrence_is_found(piece, c, rest);
    assert(s.subrange(0, piece.len() as int) =~= piece);
    assert(s.subrange(piece.len() as int + 1, s.len() as int) =~= rest);
}

/// Words are told apart by white space: white space before a text adds no word, a word
/// with white space behind it is the first word, and a word alone is all there is.
pub proof fn words_stand_between_white_space(gap: char, word: Seq<char>, rest: Seq<char>)
    requires
        white(gap),
        word.len() > 0,
        forall|i: int| 0 <= i < word.len() ==> !white(#[trigger] word[i]),
    ensures
        words(Seq::<char>::empty()) == Seq::<Seq<char>>::empty(),
        words(seq![gap] + rest) == words(rest),
        words(word) == seq![word],
        words(word + seq![gap] + rest) == seq![word] + words(rest),
{
    let e = Seq::<char>::empty();
    assert(words(e) =~= Seq::<Seq<char>>::empty());
    let g = seq![gap] + rest;
    lemma_trim_start_of(seq![gap], rest);
    lemma_trim_start(rest);
    lemma_trim_start(g);
    lemma_words_of_trimmed(g);
    lemma_words_of_trimmed(rest);
    assert(words(g) =~= words(rest));
    lemma_first_word(word, e);
    assert(word + e =~= word);
    assert(words(word) =~= seq![word]);
    let s = word + seq![gap] + rest;
    lemma_first_word(word, g);
    assert(word + g =~= s);
    assert(words(s) =~= seq![word] + words(g));
}

proof fn lemma_words_of_trimmed(s: Seq<char>)
    ensures
        words(s) == words(trim_start(s)),
{
    lemma_trim_start(s);
    let t = trim_start(s);
    assert(trim_start(t) == t);
}

/// The first word of a text that starts with one.
proof fn lemma_first_word(word: Seq<char>, rest: Seq<char>)
    requires
        word.len() > 0,
        forall|i: int| 0 <= i < word.len() ==> !white(#[trigger] word[i]),
        rest.len() > 0 ==> white(rest[0]),
    ensures
        words(word + rest) == seq![word] + words(rest),
{
    let s = word + rest;
    assert(s[0] == word[0]);
    assert(trim_start(s) == s);
    lemma_find_white(s, true);
    let i = find_white(s, true);
    if i < word.len() {
        assert(s[i] == word[i]);
    }
    if i > word.len() {
        assert(s[word.len() as int] == rest[0]);
    }
    assert(i == word.len());
    assert(s.subrange(0, i) =~= word);
    assert(s.subrange(i, s.len() as int) =~= rest);
}

/// The value of a digit of ten.
pub open spec fn digit_value(c: char) -> int {
    c as int - 48
}

/// A number in decimal reads back: its digits stand for it, without a zero in front, and
/// parsing gives it back wherever it is within the bound, with or without a plus sign.
pub proof fn decimals_read_back(n: nat, max: nat)
    ensures
        decimal_value(decimal(n)) == n,
        all_digits(decimal(n)),
        decimal(n).len() > 0,
        n > 0 ==> digit_value(decimal(n)[0]) != 0,
        n <= max ==> parse_decimal(decimal(n), max) == Some(n),
        n <= max ==> parse_decimal(seq!['+'] + decimal(n), max) == Some(n),
        n > max ==> parse_decimal(decimal(n), max) is None,
{
    lemma_decimal(n);
    let d = decimal(n);
    assert(is_digit(d[0]));
    assert(unsigned(d) == d);
    assert(unsigned(seq!['+'] + d) =~= d);
}

proof fn lemma_decimal(n: nat)
    ensures
        decimal_value(decimal(n)) == n,
        all_digits(decimal(n)),
        decimal(n).len() > 0,
        n > 0 ==> digit_value(decimal(n)[0]) != 0,
    decreases n,
{
    let d = decimal(n);
    if n < 10 {
        assert(d.drop_last() =~= Seq::<char>::empty());
        assert(decimal_value(d.drop_last()) == 0);
        assert(d.last() == digit(n));
    } else {
        lemma_decimal(n / 10);
        assert(d.drop_last() =~= decimal(n / 10));
        assert(d.last() == digit(n % 10));
        assert(d[0] == decimal(n / 10)[0]);
    }
}

/// The value of digits is that of all but the last, ten times, and the last.
pub proof fn digits_have_places(s: Seq<char>, c: char)
    requires
        is_digit(c),
    ensures
        decimal_value(s.push(c)) == decimal_value(s) * 10 + digit_value(c),
        decimal_value(Seq::<char>::empty()) == 0,
        is_digit(c) <==> 0 <= digit_value(c) < 10,
{
    assert(s.push(c).drop_last() =~= s);
}

/// Whatever is no digit, but for one plus sign in front, makes a text no number, and so
/// does having no digit at all.
pub proof fn only_digits_are_numbers(s: Seq<char>, i: int, max: nat)
    requires
        s.len() == 0 || 0 <= i < s.len() && !(48 <= s[i] as int <= 57) && !(i == 0 && s[i] == '+')
            || s == seq!['+'],
    ensures
        parse_decimal(s, max) is None,
{
    let d = unsigned(s);
    if s.len() > 0 && s != seq!['+'] {
        if s[0] == '+' {
            assert(d[i - 1] == s[i]);
        } else {
            assert(d[i] == s[i]);
        }
    }
    if s == seq!['+'] {
        assert(d.len() == 0);
    }
}

/// White space beyond ASCII: the next line, the no-break spaces, the spaces of a given
/// width, the separators of lines and paragraphs, and the ideographic space.
pub proof fn white_space_beyond_ascii(c: char)
    requires
        c as u32 >= 128,
    ensures
        white(c) <==> c == '\u{85}' || c == '\u{A0}' || c == '\u{1680}' || '\u{2000}' <= c && c
            <= '\u{200A}' || c == '\u{2028}' || c == '\u{2029}' || c == '\u{202F}' || c == '\u{205F}' || c
            == '\u{3000}',
{
}

/// Trimming leaves every character that is not white space.
pub proof fn trimming_keeps_what_is_not_white(s: Seq<char>, i: int)
    requires
        0 <= i < s.len(),
        !white(s[i]),
    ensures
        trimmed(s).contains(s[i]),
        trimmed(s).len() > 0,
{
    lemma_trim_start_keeps(s, i);
    let t = trim_start(s);
    let j = choose|j: int| 0 <= j < t.len() && t[j] == s[i];
    lemma_trim_end_keeps(t, j);
}

proof fn lemma_trim_start_keeps(s: Seq<char>, i: int)
    requires
        0 <= i < s.len(),
        !white(s[i]),
    ensures
        trim_start(s).contains(s[i]),
    decreases s.len(),
{
    if white(s[0]) {
        let t = s.subrange(1, s.len() as int);
        assert(t[i - 1] == s[i]);
        lemma_trim_start_keeps(t, i - 1);
    } else {
        assert(trim_start(s)[i] == s[i]);
    }
}

proof fn lemma_trim_end_keeps(s: Seq<char>, i: int)
    requires
        0 <= i < s.len(),
        !white(s[i]),
    ensures
        trim_end(s).contains(s[i]),
    decreases s.len(),
{
    if white(s.last()) {
        let t = s.drop_last();
        assert(t[i] == s[i]);
        lemma_trim_end_keeps(t, i);
    } else {
        assert(trim_end(s)[i] == s[i]);
    }
}

} // verus!
