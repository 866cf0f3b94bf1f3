//! Text primitives: characters of a string, decimal and hexadecimal numbers,
//! trimming, searching and joining, each stated over `Seq<char>`.

use vstd::prelude::*;

verus! {

broadcast use vstd::seq_lib::group_seq_properties;

/// `String::push`: the string afterwards is the string before with `c` behind it.
pub assume_specification[ String::push ](s: &mut String, c: char)
    ensures
        final(s)@ == old(s)@.push(c),
;

/// The text that `str::to_lowercase` gives for `text`.
pub uninterp spec fn lowercased(text: Seq<char>) -> Seq<char>;

/// `str::to_lowercase`, whose result is named `lowercased`: a function of the
/// text alone, fixed by Unicode's tables. A result of ASCII characters alone
/// stays as it is when it is lower-cased again.
#[verifier::external_body]
pub(crate) fn to_lowercase(text: &str) -> (result: String)
    ensures
        result@ == lowercased(text@),
        (forall|i: int| 0 <= i < result@.len() ==> #[trigger] result@[i] <= '\x7f') ==> lowercased(
            result@,
        ) == result@,
{
    text.to_lowercase()
}

/// The views of a sequence of values.
pub open spec fn views<T: View>(items: Seq<T>) -> Seq<T::V> {
    items.map_values(|item: T| item@)
}

/// The view of an optional value.
pub open spec fn view_of_option<T: View>(item: Option<T>) -> Option<T::V> {
    match item {
        Some(value) => Some(value@),
        None => None,
    }
}

// --- characters ----------------------------------------------------------------

/// The characters of `text`.
pub fn chars_of(text: &str) -> (result: Vec<char>)
    ensures
        result@ == text@,
{
    let mut out: Vec<char> = Vec::new();
    for c in it: text.chars()
        invariant
            out@ == it.seq().take(it.index()),
    {
        out.push(c);
    }
    out
}

/// The string made of `chars[from..to]`.
pub fn string_of(chars: &Vec<char>, from: usize, to: usize) -> (result: String)
    requires
        from <= to <= chars@.len(),
    ensures
        result@ == chars@.subrange(from as int, to as int),
{
    let mut out = String::new();
    let mut i: usize = from;
    while i < to
        invariant
            from <= i <= to <= chars@.len(),
            out@ == chars@.subrange(from as int, i as int),
        decreases to - i,
    {
        out.push(chars[i]);
        i = i + 1;
    }
    out
}

/// Whether two texts are the same.
pub fn same(a: &str, b: &str) -> (result: bool)
    ensures
        result == (a@ == b@),
{
    let x = a.as_bytes();
    let y = b.as_bytes();
    proof {
        vstd::utf8::encode_utf8_decode_utf8(a@);
        vstd::utf8::encode_utf8_decode_utf8(b@);
    }
    if x.len() != y.len() {
        return false;
    }
    let mut i: usize = 0;
    while i < x.len()
        invariant
            i <= x@.len(),
            x@.len() == y@.len(),
            x@ == vstd::utf8::encode_utf8(a@),
            y@ == vstd::utf8::encode_utf8(b@),
            forall|j: int| 0 <= j < i ==> x@[j] == y@[j],
        decreases x@.len() - i,
    {
        if x[i] != y[i] {
            return false;
        }
        i = i + 1;
    }
    assert(x@ =~= y@);
    true
}

/// The position of `name` in `names`, where it occurs.
pub open spec fn index_of(names: Seq<Seq<char>>, name: Seq<char>) -> Option<int>
    decreases names.len(),
{
    if names.len() == 0 {
        None
    } else if names[0] == name {
        Some(0)
    } else {
        match index_of(names.drop_first(), name) {
            Some(i) => Some(i + 1),
            None => None,
        }
    }
}

/// `index_of` gives the first position that holds the name, and none where no
/// position does.
pub proof fn lemma_index_of(names: Seq<Seq<char>>, name: Seq<char>)
    ensures
        match index_of(names, name) {
            Some(i) => 0 <= i < names.len() && names[i] == name && forall|j: int|
                0 <= j < i ==> names[j] != name,
            None => forall|j: int| 0 <= j < names.len() ==> names[j] != name,
        },
    decreases names.len(),
{
    if names.len() > 0 && names[0] != name {
        let rest = names.drop_first();
        lemma_index_of(rest, name);
        assert forall|j: int| 1 <= j < names.len() implies names[j] == rest[j - 1] by {}
    }
}

/// The first position of `name` is `i`, where it is there and nowhere before.
pub proof fn lemma_index_is(names: Seq<Seq<char>>, name: Seq<char>, i: int)
    requires
        0 <= i < names.len(),
        names[i] == name,
        forall|j: int| 0 <= j < i ==> names[j] != name,
    ensures
        index_of(names, name) == Some(i),
{
    lemma_index_of(names, name);
}

/// Whether `names` holds `name`.
pub fn contains(names: &Vec<String>, name: &str) -> (result: bool)
    ensures
        result == views(names@).contains(name@),
{
    let mut i: usize = 0;
    while i < names.len()
        invariant
            i <= names@.len(),
            forall|j: int| 0 <= j < i ==> views(names@)[j] != name@,
        decreases names@.len() - i,
    {
        if same(names[i].as_str(), name) {
            assert(views(names@)[i as int] == name@);
            return true;
        }
        i = i + 1;
    }
    false
}

// --- numbers -------------------------------------------------------------------

/// The character of a digit below 16, letters in upper case.
pub open spec fn upper_digit(d: int) -> char {
    if d < 10 {
        (48 + d) as u8 as char
    } else {
        (55 + d) as u8 as char
    }
}

/// The character of a digit below 16, letters in lower case.
pub open spec fn lower_digit(d: int) -> char {
    if d < 10 {
        (48 + d) as u8 as char
    } else {
        (87 + d) as u8 as char
    }
}

/// A number in decimal digits, without leading zeros.
pub open spec fn decimal(n: nat) -> Seq<char>
    decreases n,
{
    if n < 10 {
        seq![upper_digit(n as int)]
    } else {
        decimal(n / 10).push(upper_digit((n % 10) as int))
    }
}

/// A number in hexadecimal digits, letters in upper case, without leading zeros.
pub open spec fn upper_hex(n: nat) -> Seq<char>
    decreases n,
{
    if n < 16 {
        seq![upper_digit(n as int)]
    } else {
        upper_hex(n / 16).push(upper_digit((n % 16) as int))
    }
}

/// A byte as `0x` and its hexadecimal digits in lower case.
pub open spec fn byte_hex(b: u8) -> Seq<char> {
    if b < 16 {
        "0x"@.push(lower_digit(b as int))
    } else {
        "0x"@.push(lower_digit(b as int / 16)).push(lower_digit(b as int % 16))
    }
}

/// A signed number in decimal digits, with `-` before a negative one.
pub open spec fn signed_decimal(n: int) -> Seq<char> {
    if n < 0 {
        "-"@ + decimal((-n) as nat)
    } else {
        decimal(n as nat)
    }
}

pub fn decimal_text(n: u64) -> (result: String)
    ensures
        result@ == decimal(n as nat),
    decreases n,
{
    let mut out = if n < 10 {
        String::new()
    } else {
        decimal_text(n / 10)
    };
    out.push((48 + (n % 10) as u8) as char);
    out
}

pub fn signed_text(n: i64) -> (result: String)
    ensures
        result@ == signed_decimal(n as int),
{
    if n >= 0 {
        decimal_text(n as u64)
    } else {
        let magnitude: u64 = (-(n as i128)) as u64;
        "-".to_string().concat(&decimal_text(magnitude))
    }
}

pub fn upper_hex_text(n: u64) -> (result: String)
    ensures
        result@ == upper_hex(n as nat),
    decreases n,
{
    let mut out = if n < 16 {
        String::new()
    } else {
        upper_hex_text(n / 16)
    };
    let d: u8 = (n % 16) as u8;
    if d < 10 {
        out.push((48 + d) as char);
    } else {
        out.push((55 + d) as char);
    }
    out
}

pub fn byte_hex_text(b: u8) -> (result: String)
    ensures
        result@ == byte_hex(b),
{
    let mut out = "0x".to_string();
    if b >= 16 {
        let d: u8 = b / 16;
        if d < 10 {
            out.push((48 + d) as char);
        } else {
            out.push((87 + d) as char);
        }
    }
    let d: u8 = b % 16;
    if d < 10 {
        out.push((48 + d) as char);
    } else {
        out.push((87 + d) as char);
    }
    out
}

/// The value of a digit in `radix` (up to 16), where `c` is one.
pub open spec fn digit_value(c: char, radix: nat) -> Option<nat> {
    let v = if '0' <= c <= '9' {
        c as int - 48
    } else if 'a' <= c <= 'f' {
        c as int - 87
    } else if 'A' <= c <= 'F' {
        c as int - 55
    } else {
        99
    };
    if v < radix {
        Some(v as nat)
    } else {
        None
    }
}

/// The number that a row of digits writes, where all are digits. No digits
/// write zero.
pub open spec fn digits_value(digits: Seq<char>, radix: nat) -> Option<nat>
    decreases digits.len(),
{
    if digits.len() == 0 {
        Some(0)
    } else {
        match (digits_value(digits.drop_last(), radix), digit_value(digits.last(), radix)) {
            (Some(high), Some(low)) => Some(high * radix + low),
            _ => None,
        }
    }
}

/// A number without a sign or with a leading `+`, at least one digit.
pub open spec fn unsigned_value(text: Seq<char>, radix: nat) -> Option<nat> {
    let digits = if text.len() > 0 && text[0] == '+' {
        text.drop_first()
    } else {
        text
    };
    if digits.len() == 0 {
        None
    } else {
        digits_value(digits, radix)
    }
}

fn digit(c: char, radix: u64) -> (result: Option<u64>)
    requires
        2 <= radix <= 16,
    ensures
        result == match digit_value(c, radix as nat) {
            Some(d) => Some(d as u64),
            None => None,
        },
        result matches Some(d) ==> d < radix,
{
    let code: u32 = c as u32;
    let v: u32 = if '0' <= c && c <= '9' {
        code - 48
    } else if 'a' <= c && c <= 'f' {
        code - 87
    } else if 'A' <= c && c <= 'F' {
        code - 55
    } else {
        99
    };
    if (v as u64) < radix {
        Some(v as u64)
    } else {
        None
    }
}

/// Once a row of digits exceeds a bound, or is no number, so it stays however
/// it goes on.
proof fn lemma_digits_grow(digits: Seq<char>, radix: nat, upto: int)
    requires
        radix >= 2,
        0 <= upto <= digits.len(),
    ensures
        digits_value(digits.take(upto), radix) is None ==> digits_value(digits, radix) is None,
        digits_value(digits, radix) matches Some(v) ==> digits_value(digits.take(upto), radix)
            matches Some(w) && w <= v,
    decreases digits.len() - upto,
{
    if upto < digits.len() {
        lemma_digits_grow(digits, radix, upto + 1);
        let longer = digits.take(upto + 1);
        assert(longer.drop_last() =~= digits.take(upto));
        if let Some(high) = digits_value(digits.take(upto), radix) {
            assert(high <= high * radix) by (nonlinear_arith)
                requires
                    radix >= 2,
                    high >= 0,
            ;
        }
    } else {
        assert(digits.take(upto) =~= digits);
    }
}

/// The number that `chars[from..to]` writes in `radix`, where it writes one
/// that fits.
pub fn parse_digits(chars: &Vec<char>, from: usize, to: usize, radix: u64) -> (result: Option<u64>)
    requires
        from <= to <= chars@.len(),
        2 <= radix <= 16,
    ensures
        result == match digits_value(chars@.subrange(from as int, to as int), radix as nat) {
            Some(v) => if v <= u64::MAX {
                Some(v as u64)
            } else {
                None
            },
            None => None,
        },
{
    let ghost all = chars@.subrange(from as int, to as int);
    let mut value: u64 = 0;
    let mut i: usize = from;
    while i < to
        invariant
            from <= i <= to <= chars@.len(),
            2 <= radix <= 16,
            all == chars@.subrange(from as int, to as int),
            digits_value(all.take(i - from), radix as nat) == Some(value as nat),
        decreases to - i,
    {
        let ghost before = all.take(i - from);
        let ghost after = all.take(i - from + 1);
        proof {
            assert(after.drop_last() =~= before);
            assert(after.last() == chars@[i as int]);
            lemma_digits_grow(all, radix as nat, i - from + 1);
        }
        match digit(chars[i], radix) {
            Some(d) => {
                assert(value as nat * radix as nat <= u64::MAX as nat * 16) by (nonlinear_arith)
                    requires
                        value <= u64::MAX,
                        radix <= 16,
                ;
                let wide: u128 = value as u128 * radix as u128 + d as u128;
                assert(wide == value as nat * radix as nat + d as nat);
                if wide > u64::MAX as u128 {
                    return None;
                }
                value = wide as u64;
            },
            None => {
                return None;
            },
        }
        i = i + 1;
    }
    assert(all.take(to - from) =~= all);
    Some(value)
}

/// The number that `chars[from..to]` writes in `radix`, with a `+` allowed
/// before it.
pub fn parse_unsigned(chars: &Vec<char>, from: usize, to: usize, radix: u64) -> (result: Option<
    u64,
>)
    requires
        from <= to <= chars@.len(),
        2 <= radix <= 16,
    ensures
        result == match unsigned_value(chars@.subrange(from as int, to as int), radix as nat) {
            Some(v) => if v <= u64::MAX {
                Some(v as u64)
            } else {
                None
            },
            None => None,
        },
{
    let ghost all = chars@.subrange(from as int, to as int);
    let start: usize = if from < to && chars[from] == '+' {
        from + 1
    } else {
        from
    };
    proof {
        if start > from {
            assert(all.drop_first() =~= chars@.subrange(start as int, to as int));
        }
    }
    if start == to {
        return None;
    }
    parse_digits(chars, start, to, radix)
}

// --- trimming, searching, joining ----------------------------------------------

/// Unicode's White_Space property.
pub open spec fn is_whitespace(c: char) -> bool {
    let u = c as u32;
    ||| 0x9 <= u <= 0xd
    ||| u == 0x20
    ||| u == 0x85
    ||| u == 0xa0
    ||| u == 0x1680
    ||| 0x2000 <= u <= 0x200a
    ||| u == 0x2028
    ||| u == 0x2029
    ||| u == 0x202f
    ||| u == 0x205f
    ||| u == 0x3000
}

fn whitespace(c: char) -> (result: bool)
    ensures
        result == is_whitespace(c),
{
    let u: u32 = c as u32;
    (0x9 <= u && u <= 0xd) || u == 0x20 || u == 0x85 || u == 0xa0 || u == 0x1680 || (0x2000 <= u
        && u <= 0x200a) || u == 0x2028 || u == 0x2029 || u == 0x202f || u == 0x205f || u == 0x3000
}

pub open spec fn trimmed_start(text: Seq<char>) -> Seq<char>
    decreases text.len(),
{
    if text.len() > 0 && is_whitespace(text[0]) {
        trimmed_start(text.drop_first())
    } else {
        text
    }
}

pub open spec fn trimmed_end(text: Seq<char>) -> Seq<char>
    decreases text.len(),
{
    if text.len() > 0 && is_whitespace(text.last()) {
        trimmed_end(text.drop_last())
    } else {
        text
    }
}

/// A text without the white space at its two ends.
pub open spec fn trimmed(text: Seq<char>) -> Seq<char> {
    trimmed_end(trimmed_start(text))
}

/// The range of `chars` that trimming leaves.
pub fn trim_range(chars: &Vec<char>) -> (result: (usize, usize))
    ensures
        result.0 <= result.1 <= chars@.len(),
        chars@.subrange(result.0 as int, result.1 as int) == trimmed(chars@),
{
    let n: usize = chars.len();
    let mut from: usize = 0;
    assert(chars@.subrange(0, n as int) =~= chars@);
    while from < n && whitespace(chars[from])
        invariant
            from <= n == chars@.len(),
            trimmed_start(chars@.subrange(from as int, n as int)) == trimmed_start(chars@),
        decreases n - from,
    {
        assert(chars@.subrange(from as int, n as int).drop_first() =~= chars@.subrange(
            from + 1,
            n as int,
        ));
        from = from + 1;
    }
    let mut to: usize = n;
    while from < to && whitespace(chars[to - 1])
        invariant
            from <= to <= n == chars@.len(),
            trimmed_end(chars@.subrange(from as int, to as int)) == trimmed(chars@),
        decreases to - from,
    {
        assert(chars@.subrange(from as int, to as int).drop_last() =~= chars@.subrange(
            from as int,
            to - 1,
        ));
        to = to - 1;
    }
    (from, to)
}

/// A text without the white space at its two ends.
pub fn trim(text: &str) -> (result: String)
    ensures
        result@ == trimmed(text@),
{
    let chars = chars_of(text);
    let (from, to) = trim_range(&chars);
    string_of(&chars, from, to)
}

/// The first position of `c` in `text`, where it occurs.
pub open spec fn first_of(text: Seq<char>, c: char) -> Option<int>
    decreases text.len(),
{
    if text.len() == 0 {
        None
    } else if text[0] == c {
        Some(0)
    } else {
        match first_of(text.drop_first(), c) {
            Some(i) => Some(i + 1),
            None => None,
        }
    }
}

/// The first position of `c` in `chars[from..to]`, counted in `chars`.
pub fn find_char(chars: &Vec<char>, from: usize, to: usize, c: char) -> (result: Option<usize>)
    requires
        from <= to <= chars@.len(),
    ensures
        match result {
            Some(i) => from <= i < to && chars@[i as int] == c && first_of(
                chars@.subrange(from as int, to as int),
                c,
            ) == Some(i - from),
            None => first_of(chars@.subrange(from as int, to as int), c) is None && forall|j: int|
                from <= j < to ==> chars@[j] != c,
        },
{
    let ghost all = chars@.subrange(from as int, to as int);
    let mut i: usize = from;
    while i < to
        invariant
            from <= i <= to <= chars@.len(),
            all == chars@.subrange(from as int, to as int),
            forall|j: int| from <= j < i ==> chars@[j] != c,
        decreases to - i,
    {
        if chars[i] == c {
            proof {
                lemma_first_is(all, c, i - from);
            }
            return Some(i);
        }
        i = i + 1;
    }
    proof {
        lemma_first_of(all, c);
        assert forall|j: int| from <= j < to implies chars@[j] != c by {}
        assert forall|k: int| 0 <= k < all.len() implies all[k] != c by {
            assert(all[k] == chars@[from + k]);
        }
    }
    None
}

/// `first_of` gives the first position of a character, and none where there is
/// no such position.
pub proof fn lemma_first_of(text: Seq<char>, c: char)
    ensures
        match first_of(text, c) {
            Some(i) => 0 <= i < text.len() && text[i] == c && forall|j: int|
                0 <= j < i ==> text[j] != c,
            None => forall|j: int| 0 <= j < text.len() ==> text[j] != c,
        },
    decreases text.len(),
{
    if text.len() > 0 && text[0] != c {
        let rest = text.drop_first();
        lemma_first_of(rest, c);
        assert forall|j: int| 1 <= j < text.len() implies text[j] == rest[j - 1] by {}
    }
}

/// The first position of `c` is `i`, where it is there and nowhere before.
pub proof fn lemma_first_is(text: Seq<char>, c: char, i: int)
    requires
        0 <= i < text.len(),
        text[i] == c,
        forall|j: int| 0 <= j < i ==> text[j] != c,
    ensures
        first_of(text, c) == Some(i),
{
    lemma_first_of(text, c);
}

/// Whether `needle` stands in `text` at position `at`.
pub open spec fn occurs_at(text: Seq<char>, needle: Seq<char>, at: int) -> bool {
    0 <= at && at + needle.len() <= text.len() && text.subrange(at, at + needle.len()) == needle
}

/// Whether `needle` stands somewhere in `text`.
pub open spec fn occurs(text: Seq<char>, needle: Seq<char>) -> bool {
    exists|at: int| occurs_at(text, needle, at)
}

fn found_at(text: &Vec<char>, needle: &Vec<char>, at: usize) -> (result: bool)
    requires
        at + needle@.len() <= text@.len(),
    ensures
        result == occurs_at(text@, needle@, at as int),
{
    let total: usize = text.len();
    let mut i: usize = 0;
    while i < needle.len()
        invariant
            i <= needle@.len(),
            at + needle@.len() <= text@.len() == total,
            forall|j: int| 0 <= j < i ==> text@[at + j] == needle@[j],
        decreases needle@.len() - i,
    {
        if text[at + i] != needle[i] {
            proof {
                let part = text@.subrange(at as int, at + needle@.len());
                assert(part[i as int] == text@[at + i]);
            }
            return false;
        }
        i = i + 1;
    }
    assert(text@.subrange(at as int, at + needle@.len()) =~= needle@);
    true
}

/// Whether `text` begins with `prefix`.
pub fn starts_with(text: &str, prefix: &str) -> (result: bool)
    ensures
        result == occurs_at(text@, prefix@, 0),
{
    let chars = chars_of(text);
    let wanted = chars_of(prefix);
    if wanted.len() > chars.len() {
        return false;
    }
    found_at(&chars, &wanted, 0)
}

/// Whether `needle` stands somewhere in `text`.
pub fn contains_text(text: &str, needle: &str) -> (result: bool)
    ensures
        result == occurs(text@, needle@),
{
    let haystack = chars_of(text);
    let wanted = chars_of(needle);
    if wanted.len() > haystack.len() {
        return false;
    }
    let last: usize = haystack.len() - wanted.len();
    let mut at: usize = 0;
    loop
        invariant
            haystack@ == text@,
            wanted@ == needle@,
            at <= last == haystack@.len() - wanted@.len(),
            forall|j: int| 0 <= j < at ==> !occurs_at(text@, needle@, j),
        decreases last - at,
    {
        if found_at(&haystack, &wanted, at) {
            return true;
        }
        if at == last {
            return false;
        }
        at = at + 1;
    }
}

/// The parts one behind the other, with `separator` between them.
pub open spec fn joined(parts: Seq<Seq<char>>, separator: Seq<char>) -> Seq<char>
    decreases parts.len(),
{
    if parts.len() == 0 {
        Seq::empty()
    } else if parts.len() == 1 {
        parts[0]
    } else {
        joined(parts.drop_last(), separator) + separator + parts.last()
    }
}

pub fn join(parts: &Vec<String>, separator: &str) -> (result: String)
    ensures
        result@ == joined(views(parts@), separator@),
{
    let mut out = String::new();
    let mut i: usize = 0;
    while i < parts.len()
        invariant
            i <= parts@.len(),
            out@ == joined(views(parts@).take(i as int), separator@),
        decreases parts@.len() - i,
    {
        let ghost before = views(parts@).take(i as int);
        let ghost after = views(parts@).take(i + 1);
        assert(after.drop_last() =~= before);
        assert(after.last() == parts@[i as int]@);
        if i == 0 {
            out = parts[0].clone();
        } else {
            out.append(separator);
            out.append(parts[i].as_str());
        }
        i = i + 1;
    }
    assert(views(parts@).take(parts@.len() as int) =~= views(parts@));
    out
}

/// A number with an optional sign, at least one digit.
pub open spec fn signed_value(text: Seq<char>) -> Option<int> {
    if text.len() > 0 && text[0] == '-' {
        let digits = text.drop_first();
        if digits.len() == 0 {
            None
        } else {
            match digits_value(digits, 10) {
                Some(n) => Some(-(n as int)),
                None => None,
            }
        }
    } else {
        match unsigned_value(text, 10) {
            Some(n) => Some(n as int),
            None => None,
        }
    }
}

/// What std's parser says of a text that is no 64-bit integer.
pub uninterp spec fn integer_error(text: Seq<char>) -> Seq<char>;

/// The text of the error of `str::parse::<i64>`, on a text that is no 64-bit
/// integer; it is named `integer_error`, a function of the text alone.
#[verifier::external_body]
fn integer_error_text(text: &str) -> (result: String)
    requires
        signed_value(text@) matches Some(n) ==> !(i64::MIN <= n <= i64::MAX),
    ensures
        result@ == integer_error(text@),
{
    text.parse::<i64>().map_err(|e| e.to_string()).err().unwrap_or_default()
}

/// A 64-bit integer: an optional sign and at least one decimal digit, where the
/// number fits.
pub fn signed_number(text: &str) -> (result: Option<i64>)
    ensures
        result == match signed_value(text@) {
            Some(n) if i64::MIN <= n <= i64::MAX => Some(n as i64),
            _ => None,
        },
{
    let chars = chars_of(text);
    let n: usize = chars.len();
    assert(chars@.subrange(0, n as int) =~= text@);
    if n > 0 && chars[0] == '-' {
        assert(chars@.subrange(1, n as int) =~= text@.drop_first());
        if n == 1 {
            return None;
        }
        return match parse_digits(&chars, 1, n, 10) {
            Some(value) => if value <= i64::MAX as u64 {
                Some(-(value as i64))
            } else if value == 9223372036854775808u64 {
                Some(i64::MIN)
            } else {
                None
            },
            None => None,
        };
    }
    match parse_unsigned(&chars, 0, n, 10) {
        Some(value) => if value <= i64::MAX as u64 {
            Some(value as i64)
        } else {
            None
        },
        None => None,
    }
}

/// A 64-bit integer, or what std says of a text that is none.
pub fn parse_i64(text: &str) -> (result: Result<i64, String>)
    ensures
        match result {
            Ok(n) => signed_value(text@) == Some(n as int),
            Err(e) => (signed_value(text@) matches Some(n) ==> !(i64::MIN <= n <= i64::MAX)) && e@
                == integer_error(text@),
        },
{
    match signed_number(text) {
        Some(n) => Ok(n),
        None => Err(integer_error_text(text)),
    }
}

/// The position of the last `c` in `text`.
pub open spec fn last_position(text: Seq<char>, c: char) -> Option<int>
    decreases text.len(),
{
    if text.len() == 0 {
        None
    } else if text.last() == c {
        Some(text.len() - 1)
    } else {
        last_position(text.drop_last(), c)
    }
}

/// The text in front of the last `c` and the text behind it.
pub open spec fn split_at_last(text: Seq<char>, c: char) -> Option<(Seq<char>, Seq<char>)> {
    match last_position(text, c) {
        Some(i) => Some((text.take(i), text.skip(i + 1))),
        None => None,
    }
}

pub fn split_last(text: &str, c: char) -> (result: Option<(String, String)>)
    ensures
        match result {
            Some((front, back)) => split_at_last(text@, c) == Some((front@, back@)),
            None => split_at_last(text@, c) is None,
        },
{
    let chars = chars_of(text);
    let mut i: usize = chars.len();
    assert(chars@.take(i as int) =~= text@);
    while i > 0
        invariant
            i <= chars@.len(),
            chars@ == text@,
            last_position(text@, c) == last_position(chars@.take(i as int), c),
        decreases i,
    {
        let ghost head = chars@.take(i as int);
        assert(head.drop_last() =~= chars@.take(i - 1));
        assert(head.last() == chars@[i - 1]);
        i = i - 1;
        if chars[i] == c {
            assert(chars@.subrange(0, i as int) =~= text@.take(i as int));
            assert(chars@.subrange(i + 1, chars@.len() as int) =~= text@.skip(i + 1));
            return Some((string_of(&chars, 0, i), string_of(&chars, i + 1, chars.len())));
        }
    }
    None
}

/// The decimal digits of a number write that number.
pub proof fn lemma_decimal_value(n: nat)
    ensures
        decimal(n).len() > 0,
        digits_value(decimal(n), 10) == Some(n),
    decreases n,
{
    if n >= 10 {
        lemma_decimal_value(n / 10);
        assert(decimal(n).drop_last() =~= decimal(n / 10));
    } else {
        assert(decimal(n).drop_last() =~= Seq::empty());
        reveal_with_fuel(digits_value, 2);
    }
}

// --- parts of texts --------------------------------------------------------------

/// Whether a text holds another one, letter by letter, somewhere.
#[verifier::opaque]
pub open spec fn has_part(whole: Seq<char>, part: Seq<char>) -> bool {
    exists|i: int| #[trigger] has_part_at(whole, part, i)
}

pub open spec fn has_part_at(whole: Seq<char>, part: Seq<char>, i: int) -> bool {
    0 <= i && i + part.len() <= whole.len() && whole.subrange(i, i + part.len()) == part
}

/// What stands somewhere in a text is part of it.
pub proof fn lemma_part_at(whole: Seq<char>, part: Seq<char>, i: int)
    requires
        has_part_at(whole, part, i),
    ensures
        has_part(whole, part),
{
    reveal(has_part);
}

pub proof fn lemma_part_of_itself(text: Seq<char>)
    ensures
        has_part(text, text),
{
    assert(text.subrange(0, text.len() as int) =~= text);
    lemma_part_at(text, text, 0);
}

/// What is part of a text is part of any longer one.
pub proof fn lemma_part_within(front: Seq<char>, text: Seq<char>, back: Seq<char>, part: Seq<char>)
    requires
        has_part(text, part),
    ensures
        has_part(front + text + back, part),
{
    reveal(has_part);
    let i = choose|i: int| has_part_at(text, part, i);
    let whole = front + text + back;
    let k = front.len() + i;
    assert(whole.subrange(k, k + part.len()) =~= text.subrange(i, i + part.len()));
    assert(has_part_at(whole, part, k));
}

pub proof fn lemma_part_left(text: Seq<char>, back: Seq<char>, part: Seq<char>)
    requires
        has_part(text, part),
    ensures
        has_part(text + back, part),
{
    lemma_part_within(Seq::empty(), text, back, part);
    assert(Seq::<char>::empty() + text + back =~= text + back);
}

pub proof fn lemma_part_right(front: Seq<char>, text: Seq<char>, part: Seq<char>)
    requires
        has_part(text, part),
    ensures
        has_part(front + text, part),
{
    lemma_part_within(front, text, Seq::empty(), part);
    assert(front + text + Seq::<char>::empty() =~= front + text);
}

/// A joined text holds each of its parts.
pub proof fn lemma_part_of_joined(parts: Seq<Seq<char>>, separator: Seq<char>, i: int)
    requires
        0 <= i < parts.len(),
    ensures
        has_part(joined(parts, separator), parts[i]),
    decreases parts.len(),
{
    let rest = parts.drop_last();
    if i == parts.len() - 1 {
        lemma_part_of_itself(parts[i]);
        if parts.len() > 1 {
            lemma_part_right(joined(rest, separator) + separator, parts[i], parts[i]);
        }
    } else {
        lemma_part_of_joined(rest, separator, i);
        lemma_part_left(joined(rest, separator), separator, rest[i]);
        lemma_part_left(joined(rest, separator) + separator, parts.last(), rest[i]);
    }
}

/// A text is split at the last separator: what stands behind it has none.
pub proof fn lemma_split_at_last(front: Seq<char>, c: char, back: Seq<char>)
    requires
        forall|i: int| 0 <= i < back.len() ==> #[trigger] back[i] != c,
    ensures
        split_at_last(front + seq![c] + back, c) == Some((front, back)),
        last_position(front + seq![c] + back, c) == Some(front.len() as int),
    decreases back.len(),
{
    let whole = front + seq![c] + back;
    if back.len() == 0 {
        assert(whole.last() == c);
    } else {
        assert(whole.last() == back[back.len() - 1]);
        assert forall|i: int| 0 <= i < back.drop_last().len() implies #[trigger] back.drop_last()[i]
            != c by {
            assert(back[i] != c);
        }
        lemma_split_at_last(front, c, back.drop_last());
        assert(whole.drop_last() =~= front + seq![c] + back.drop_last());
    }
    assert(whole.take(front.len() as int) =~= front);
    assert(whole.skip(front.len() as int + 1) =~= back);
}

/// The digits are the ten of decimal, and in hexadecimal the letters from a to f in either
/// case.
pub proof fn law_digits_are_those_of_ascii(c: char, d: nat)
    ensures
        digit_value(c, 10) == Some(d) <==> d < 10 && c == "0123456789"@[d as int],
        digit_value(c, 16) == Some(d) <==> d < 16 && (c == "0123456789abcdef"@[d as int] || c
            == "0123456789ABCDEF"@[d as int]),
        d < 16 ==> upper_digit(d as int) == "0123456789ABCDEF"@[d as int],
        d < 16 ==> lower_digit(d as int) == "0123456789abcdef"@[d as int],
{
    reveal_strlit("0123456789");
    reveal_strlit("0123456789abcdef");
    reveal_strlit("0123456789ABCDEF");
}

/// One more digit makes a number `radix` times as large and adds the digit.
pub proof fn law_digits_are_positional(digits: Seq<char>, c: char, radix: nat)
    ensures
        digits_value(Seq::empty(), radix) == Some(0nat),
        digits_value(digits.push(c), radix) is Some <==> digits_value(digits, radix) is Some
            && digit_value(c, radix) is Some,
        digits_value(digits.push(c), radix) matches Some(n) ==> n == (digits_value(digits, radix)->0)
            * radix + digit_value(c, radix)->0,
{
    assert(digits.push(c).drop_last() =~= digits);
}

/// A number that is written is read back, and is written without leading zeros.
pub proof fn law_numbers_are_read_as_written(n: int)
    ensures
        signed_value(signed_decimal(n)) == Some(n),
        n >= 0 ==> unsigned_value(decimal(n as nat), 10) == Some(n as nat),
        n > 0 ==> decimal(n as nat)[0] != '0',
        n < 0 ==> signed_decimal(n)[0] == '-' && signed_decimal(n)[1] != '0',
{
    reveal_strlit("-");
    let m: nat = if n < 0 {
        (-n) as nat
    } else {
        n as nat
    };
    lemma_decimal_value(m);
    lemma_decimal_starts(m);
    if n < 0 {
        assert(signed_decimal(n).drop_first() =~= decimal(m));
    }
}

proof fn lemma_decimal_starts(n: nat)
    ensures
        decimal(n).len() > 0,
        '0' <= decimal(n)[0] <= '9',
        n > 0 ==> decimal(n)[0] != '0',
    decreases n,
{
    if n >= 10 {
        lemma_decimal_starts(n / 10);
    }
}

/// A byte is written as `0x` and its hexadecimal digits, without a leading zero.
pub proof fn law_bytes_are_written_in_hexadecimal(b: u8)
    ensures
        byte_hex(b).take(2) == "0x"@,
        digits_value(byte_hex(b).skip(2), 16) == Some(b as nat),
        byte_hex(b).len() == if b < 16 {
            3int
        } else {
            4
        },
{
    reveal_strlit("0x");
    let text = byte_hex(b);
    assert(text.take(2) =~= "0x"@);
    let low = lower_digit(b as int % 16);
    assert(digit_value(low, 16) == Some((b % 16) as nat));
    law_digits_are_positional(Seq::empty(), low, 16);
    if b < 16 {
        assert(text.skip(2) =~= Seq::empty().push(low));
    } else {
        let high = lower_digit(b as int / 16);
        assert(digit_value(high, 16) == Some((b / 16) as nat));
        law_digits_are_positional(Seq::empty(), high, 16);
        law_digits_are_positional(Seq::empty().push(high), low, 16);
        assert(text.skip(2) =~= Seq::empty().push(high).push(low));
    }
}

/// Whether a text is made of white space alone.
pub open spec fn is_blank(text: Seq<char>) -> bool {
    forall|i: int| 0 <= i < text.len() ==> is_whitespace(#[trigger] text[i])
}

proof fn lemma_trimmed_start(text: Seq<char>) -> (at: int)
    ensures
        0 <= at <= text.len(),
        is_blank(text.take(at)),
        trimmed_start(text) == text.skip(at),
        at < text.len() ==> !is_whitespace(text[at]),
    decreases text.len(),
{
    if text.len() > 0 && is_whitespace(text[0]) {
        let rest = text.drop_first();
        let at = lemma_trimmed_start(rest);
        assert(text.skip(at + 1) =~= rest.skip(at));
        assert forall|i: int| 0 <= i < at + 1 implies is_whitespace(
            #[trigger] text.take(at + 1)[i],
        ) by {
            if i > 0 {
                assert(rest.take(at)[i - 1] == text[i]);
            }
        }
        at + 1
    } else {
        assert(text.skip(0) =~= text);
        0
    }
}

proof fn lemma_trimmed_end(text: Seq<char>) -> (at: int)
    ensures
        0 <= at <= text.len(),
        is_blank(text.skip(at)),
        trimmed_end(text) == text.take(at),
        at > 0 ==> !is_whitespace(text[at - 1]),
    decreases text.len(),
{
    if text.len() > 0 && is_whitespace(text.last()) {
        let rest = text.drop_last();
        let at = lemma_trimmed_end(rest);
        assert(text.take(at) =~= rest.take(at));
        assert forall|i: int| 0 <= i < text.skip(at).len() implies is_whitespace(
            #[trigger] text.skip(at)[i],
        ) by {
            if i < rest.skip(at).len() {
                assert(rest.skip(at)[i] == text[at + i]);
            }
        }
        at
    } else {
        assert(text.take(text.len() as int) =~= text);
        text.len() as int
    }
}

/// Trimming takes white space off both ends of a text, all of it, and nothing else.
pub proof fn law_trimming_takes_only_white_space(text: Seq<char>) -> (at: (Seq<char>, Seq<char>))
    ensures
        text == at.0 + trimmed(text) + at.1,
        is_blank(at.0),
        is_blank(at.1),
        trimmed(text).len() > 0 ==> !is_whitespace(trimmed(text)[0]) && !is_whitespace(
            trimmed(text).last(),
        ),
        trimmed(text).len() == 0 <==> is_blank(text),
{
    let a = lemma_trimmed_start(text);
    let rest = text.skip(a);
    let b = lemma_trimmed_end(rest);
    let front = text.take(a);
    let back = rest.skip(b);
    assert(text =~= front + rest.take(b) + back);
    if b > 0 {
        assert(rest[0] == text[a]);
        assert(trimmed(text)[0] == text[a]);
        assert(trimmed(text).last() == rest[b - 1]);
        assert(!is_whitespace(text[a]));
    } else {
        assert forall|i: int| 0 <= i < text.len() implies is_whitespace(#[trigger] text[i]) by {
            if i < a {
                assert(front[i] == text[i]);
            } else {
                assert(back[i - a] == text[i]);
            }
        }
    }
    (front, back)
}

/// Parts are joined in their order, with the separator between every two.
pub proof fn law_parts_are_joined_in_order(
    parts: Seq<Seq<char>>,
    more: Seq<char>,
    separator: Seq<char>,
)
    ensures
        joined(Seq::empty(), separator) == Seq::<char>::empty(),
        joined(seq![more], separator) == more,
        parts.len() > 0 ==> joined(parts.push(more), separator) == joined(parts, separator)
            + separator + more,
{
    assert(parts.push(more).drop_last() =~= parts);
}

/// A text is split only where it holds the separator.
pub proof fn law_texts_without_separator_stay_whole(text: Seq<char>, c: char)
    ensures
        split_at_last(text, c) is None <==> !text.contains(c),
        split_at_last(text, c) matches Some((front, back)) ==> text == front.push(c) + back
            && !back.contains(c),
    decreases text.len(),
{
    if text.len() > 0 {
        let rest = text.drop_last();
        law_texts_without_separator_stay_whole(rest, c);
        assert(text =~= rest.push(text.last()));
        if text.last() == c {
            assert(text[text.len() - 1] == c);
            assert(text.take(text.len() - 1) =~= rest);
            assert(text.skip(text.len() as int) =~= Seq::empty());
            assert(text =~= rest.push(c) + Seq::<char>::empty());
        } else {
            if text.contains(c) {
                let i = choose|i: int| 0 <= i < text.len() && text[i] == c;
                assert(rest[i] == c);
            }
            if rest.contains(c) {
                let i = choose|i: int| 0 <= i < rest.len() && rest[i] == c;
                assert(text[i] == c);
            }
            if let Some(at) = last_position(rest, c) {
                let (front, back) = split_at_last(rest, c)->0;
                lemma_last_position(rest, c);
                assert(text.take(at) =~= front);
                assert(text.skip(at + 1) =~= back.push(text.last()));
                assert(text =~= front.push(c) + back.push(text.last()));
                if back.push(text.last()).contains(c) {
                    let i = choose|i: int|
                        0 <= i < back.push(text.last()).len() && back.push(text.last())[i] == c;
                    assert(back[i] == c);
                }
            }
        }
    } else {
        assert(!text.contains(c));
    }
}

proof fn lemma_last_position(text: Seq<char>, c: char)
    ensures
        last_position(text, c) matches Some(i) ==> 0 <= i < text.len() && text[i] == c,
    decreases text.len(),
{
    if text.len() > 0 && text.last() != c {
        lemma_last_position(text.drop_last(), c);
    }
}

proof fn lemma_blank_in_front(front: Seq<char>, text: Seq<char>)
    requires
        is_blank(front),
    ensures
        trimmed_start(front + text) == trimmed_start(text),
    decreases front.len(),
{
    if front.len() == 0 {
        assert(front + text =~= text);
    } else {
        let rest = front.drop_first();
        assert((front + text)[0] == front[0]);
        assert((front + text).drop_first() =~= rest + text);
        assert forall|i: int| 0 <= i < rest.len() implies is_whitespace(#[trigger] rest[i]) by {
            assert(rest[i] == front[i + 1]);
        }
        lemma_blank_in_front(rest, text);
    }
}

proof fn lemma_blank_behind(text: Seq<char>, back: Seq<char>)
    requires
        is_blank(back),
    ensures
        trimmed_end(text + back) == trimmed_end(text),
    decreases back.len(),
{
    if back.len() == 0 {
        assert(text + back =~= text);
    } else {
        let rest = back.drop_last();
        assert((text + back).last() == back.last());
        assert((text + back).drop_last() =~= text + rest);
        assert(is_whitespace(back[back.len() - 1]));
        assert forall|i: int| 0 <= i < rest.len() implies is_whitespace(#[trigger] rest[i]) by {
            assert(rest[i] == back[i]);
        }
        lemma_blank_behind(text, rest);
    }
}

/// White space around a text does not matter to what trimming leaves of it.
pub proof fn law_white_space_around_does_not_matter(
    front: Seq<char>,
    text: Seq<char>,
    back: Seq<char>,
)
    requires
        is_blank(front),
        is_blank(back),
    ensures
        trimmed(front + text + back) == trimmed(text),
{
    assert(front + text + back =~= front + (text + back));
    lemma_blank_in_front(front, text + back);
    let a = lemma_trimmed_start(text);
    let head = text.take(a);
    let rest = text.skip(a);
    assert(text =~= head + rest);
    if rest.len() > 0 {
        assert(text + back =~= head + (rest + back));
        lemma_blank_in_front(head, rest + back);
        assert((rest + back)[0] == text[a]);
        assert(trimmed_start(rest + back) == rest + back);
        lemma_blank_behind(rest, back);
    } else {
        assert(text =~= head);
        assert(text + back + Seq::<char>::empty() =~= text + back);
        assert forall|i: int| 0 <= i < (text + back).len() implies is_whitespace(
            #[trigger] (text + back)[i],
        ) by {
            if i < text.len() {
                assert(head[i] == text[i]);
            } else {
                assert(back[i - text.len()] == (text + back)[i]);
            }
        }
        lemma_blank_in_front(text + back, Seq::empty());
        assert(trimmed_start(text + back) == Seq::<char>::empty());
        assert(trimmed_start(text) =~= Seq::empty());
    }
}

/// A text occurs in another exactly where that has it as a part.
pub proof fn law_parts_occur(text: Seq<char>, needle: Seq<char>)
    ensures
        occurs(text, needle) <==> has_part(text, needle),
{
    reveal(has_part);
    if occurs(text, needle) {
        let at = choose|at: int| occurs_at(text, needle, at);
        assert(has_part_at(text, needle, at));
    }
    if has_part(text, needle) {
        let i = choose|i: int| has_part_at(text, needle, i);
        assert(occurs_at(text, needle, i));
    }
}

/// A name is found at its first place in a list, and not where it is in none.
pub proof fn law_names_are_found_at_their_first_place(names: Seq<Seq<char>>, name: Seq<char>)
    ensures
        index_of(names, name) is Some <==> names.contains(name),
        index_of(names, name) matches Some(i) ==> names[i] == name && !names.take(i).contains(name),
{
    lemma_index_of(names, name);
    if names.contains(name) {
        let k = choose|k: int| 0 <= k < names.len() && names[k] == name;
        assert(names[k] == name);
    }
    if let Some(i) = index_of(names, name) {
        assert(names[i] == name);
        if names.take(i).contains(name) {
            let k = choose|k: int| 0 <= k < names.take(i).len() && names.take(i)[k] == name;
            assert(names[k] == name);
        }
    }
}

} // verus!
