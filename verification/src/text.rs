//! Text: characters, searching, trimming, joining, and decimal numbers.
//!
//! A string is modelled by the sequence of its characters. The functions here
//! work on `Vec<char>`, which gives every character an index.

use vstd::prelude::*;

verus! {

/// `String::push` appends one character at the end of the string.
pub assume_specification[ String::push ](s: &mut String, c: char)
    ensures
        final(s)@ == old(s)@.push(c),
;

// ── Conversions ─────────────────────────────────────────────────────────────

/// The characters of `s`, in order.
pub fn chars_of(s: &str) -> (out: Vec<char>)
    ensures
        out@ == s@,
{
    let mut out: Vec<char> = Vec::new();
    for c in it: s.chars()
        invariant
            it.seq() == s@,
            out@ == s@.take(it.index() as int),
    {
        out.push(c);
        assert(s@.take(it.index() as int + 1) =~= s@.take(it.index() as int).push(c));
    }
    assert(s@.take(s@.len() as int) =~= s@);
    out
}

/// The string that holds the characters `v[from..to]`.
pub fn string_between(v: &Vec<char>, from: usize, to: usize) -> (out: String)
    requires
        from <= to <= v.len(),
    ensures
        out@ == v@.subrange(from as int, to as int),
{
    let mut out = String::new();
    let mut i: usize = from;
    while i < to
        invariant
            from <= i <= to <= v.len(),
            out@ == v@.subrange(from as int, i as int),
        decreases to - i,
    {
        out.push(v[i]);
        i += 1;
        assert(v@.subrange(from as int, i as int) =~= v@.subrange(from as int, i - 1).push(v@[i - 1]));
    }
    out
}

/// The string with the characters `v`.
pub fn string_of(v: &Vec<char>) -> (out: String)
    ensures
        out@ == v@,
{
    let out = string_between(v, 0, v.len());
    assert(v@.subrange(0, v@.len() as int) =~= v@);
    out
}

/// Whether two strings hold the same characters.
pub fn same_text(a: &str, b: &str) -> (same: bool)
    ensures
        same == (a@ == b@),
{
    a.to_owned() == b.to_owned()
}

/// The characters of an optional string.
pub open spec fn opt_text(s: Option<String>) -> Option<Seq<char>> {
    match s {
        Some(t) => Some(t@),
        None => None,
    }
}

/// A copy of an optional string.
pub fn clone_opt(s: &Option<String>) -> (out: Option<String>)
    ensures
        opt_text(out) == opt_text(*s),
{
    match s {
        Some(t) => Some(t.clone()),
        None => None,
    }
}

/// The characters of each string of a list.
pub open spec fn texts(list: Seq<String>) -> Seq<Seq<char>> {
    list.map_values(|s: String| s@)
}

/// A copy of a list of strings.
pub fn clone_texts(list: &Vec<String>) -> (out: Vec<String>)
    ensures
        texts(out@) == texts(list@),
{
    let mut out: Vec<String> = Vec::new();
    let mut i: usize = 0;
    while i < list.len()
        invariant
            i <= list.len(),
            out.len() == i,
            forall|j: int| 0 <= j < i ==> (#[trigger] out@[j])@ == list@[j]@,
        decreases list.len() - i,
    {
        out.push(list[i].clone());
        i += 1;
    }
    assert(texts(out@) =~= texts(list@));
    out
}

/// Whether a list of strings holds the text `s`.
pub fn has_text(list: &Vec<String>, s: &str) -> (found: bool)
    ensures
        found == texts(list@).contains(s@),
{
    let mut i: usize = 0;
    while i < list.len()
        invariant
            i <= list.len(),
            forall|j: int| 0 <= j < i ==> texts(list@)[j] != s@,
        decreases list.len() - i,
    {
        if same_text(list[i].as_str(), s) {
            assert(texts(list@)[i as int] == s@);
            return true;
        }
        i += 1;
    }
    false
}

// ── Whitespace ──────────────────────────────────────────────────────────────

/// The characters with the Unicode property `White_Space`.
pub open spec fn is_space(c: char) -> bool {
    let n = c as u32;
    ||| 0x09 <= n <= 0x0d
    ||| n == 0x20
    ||| n == 0x85
    ||| n == 0xa0
    ||| n == 0x1680
    ||| 0x2000 <= n <= 0x200a
    ||| n == 0x2028
    ||| n == 0x2029
    ||| n == 0x202f
    ||| n == 0x205f
    ||| n == 0x3000
}

/// Whether `c` is whitespace.
pub fn is_whitespace(c: char) -> (yes: bool)
    ensures
        yes == is_space(c),
{
    let n: u32 = c as u32;
    (0x09 <= n && n <= 0x0d) || n == 0x20 || n == 0x85 || n == 0xa0 || n == 0x1680 || (0x2000 <= n
        && n <= 0x200a) || n == 0x2028 || n == 0x2029 || n == 0x202f || n == 0x205f || n == 0x3000
}

/// `s` without the whitespace at its start.
pub open spec fn trimmed_start(s: Seq<char>) -> Seq<char>
    decreases s.len(),
{
    if s.len() > 0 && is_space(s[0]) {
        trimmed_start(s.drop_first())
    } else {
        s
    }
}

/// `s` without the whitespace at its end.
pub open spec fn trimmed_end(s: Seq<char>) -> Seq<char>
    decreases s.len(),
{
    if s.len() > 0 && is_space(s.last()) {
        trimmed_end(s.drop_last())
    } else {
        s
    }
}

/// `s` without the whitespace at both ends.
pub open spec fn trimmed(s: Seq<char>) -> Seq<char> {
    trimmed_end(trimmed_start(s))
}

/// The characters of `v` from the first that is no whitespace.
pub fn trim_start_chars(v: &Vec<char>) -> (out: Vec<char>)
    ensures
        out@ == trimmed_start(v@),
{
    let mut i: usize = 0;
    assert(v@.skip(0) =~= v@);
    while i < v.len() && is_whitespace(v[i])
        invariant
            i <= v.len(),
            trimmed_start(v@) == trimmed_start(v@.skip(i as int)),
        decreases v.len() - i,
    {
        assert(v@.skip(i as int).drop_first() =~= v@.skip(i + 1));
        i += 1;
    }
    assert(trimmed_start(v@) == v@.skip(i as int));
    slice_chars(v, i, v.len())
}

/// The characters `v[from..to]`.
pub fn slice_chars(v: &Vec<char>, from: usize, to: usize) -> (out: Vec<char>)
    requires
        from <= to <= v.len(),
    ensures
        out@ == v@.subrange(from as int, to as int),
{
    let mut out: Vec<char> = Vec::new();
    let mut i: usize = from;
    while i < to
        invariant
            from <= i <= to <= v.len(),
            out@ == v@.subrange(from as int, i as int),
        decreases to - i,
    {
        out.push(v[i]);
        i += 1;
        assert(v@.subrange(from as int, i as int) =~= v@.subrange(from as int, i - 1).push(v@[i - 1]));
    }
    out
}

/// The characters of `v` without the whitespace at both ends.
pub fn trim_chars(v: &Vec<char>) -> (out: Vec<char>)
    ensures
        out@ == trimmed(v@),
{
    let mut out = trim_start_chars(v);
    let ghost start = out@;
    while out.len() > 0 && is_whitespace(out[out.len() - 1])
        invariant
            trimmed_end(start) == trimmed_end(out@),
        decreases out.len(),
    {
        let ghost before = out@;
        out.pop();
        assert(out@ =~= before.drop_last());
    }
    out
}

/// `s` without the whitespace at both ends.
pub fn trim(s: &str) -> (out: String)
    ensures
        out@ == trimmed(s@),
{
    string_of(&trim_chars(&chars_of(s)))
}

// ── Searching ───────────────────────────────────────────────────────────────

/// The text `p` stands in `s` from index `i` on.
pub open spec fn occurs_at(s: Seq<char>, p: Seq<char>, i: int) -> bool {
    &&& 0 <= i
    &&& i + p.len() <= s.len()
    &&& s.subrange(i, i + p.len()) == p
}

/// The first index, `from` or later, at which `p` stands in `s`.
pub open spec fn find_from(s: Seq<char>, p: Seq<char>, from: int) -> Option<int>
    decreases s.len() - from + 1,
{
    if from < 0 || from + p.len() > s.len() {
        None
    } else if occurs_at(s, p, from) {
        Some(from)
    } else {
        find_from(s, p, from + 1)
    }
}

/// Where a search finds something, it stands there.
pub proof fn lemma_found(s: Seq<char>, p: Seq<char>, from: int)
    requires
        find_from(s, p, from) is Some,
    ensures
        from <= find_from(s, p, from)->0,
        occurs_at(s, p, find_from(s, p, from)->0),
        forall|j: int| from <= j < find_from(s, p, from)->0 ==> !(#[trigger] occurs_at(s, p, j)),
    decreases s.len() - from + 1,
{
    if !occurs_at(s, p, from) {
        lemma_found(s, p, from + 1);
    }
}

/// What stands nowhere is not found.
pub proof fn lemma_stands_nowhere(s: Seq<char>, p: Seq<char>, from: int)
    requires
        0 <= from,
        forall|j: int| from <= j ==> !(#[trigger] occurs_at(s, p, j)),
    ensures
        find_from(s, p, from) is None,
    decreases s.len() - from + 1,
{
    if from + p.len() <= s.len() {
        assert(!occurs_at(s, p, from));
        lemma_stands_nowhere(s, p, from + 1);
    }
}

/// Whether `p` stands in `v` from index `i` on.
pub fn stands_at(v: &Vec<char>, p: &Vec<char>, i: usize) -> (yes: bool)
    ensures
        yes == occurs_at(v@, p@, i as int),
{
    if p.len() > v.len() || i > v.len() - p.len() {
        return false;
    }
    let mut k: usize = 0;
    while k < p.len()
        invariant
            k <= p.len(),
            i + p.len() <= v.len(),
            forall|j: int| 0 <= j < k ==> v@[i + j] == p@[j],
        decreases p.len() - k,
    {
        if v[i + k] != p[k] {
            assert(v@.subrange(i as int, i + p@.len())[k as int] != p@[k as int]);
            return false;
        }
        k += 1;
    }
    assert(v@.subrange(i as int, i + p@.len()) =~= p@);
    true
}

/// The first index, `from` or later, at which `p` stands in `v`.
pub fn find_chars(v: &Vec<char>, p: &Vec<char>, from: usize) -> (at: Option<usize>)
    ensures
        match at {
            Some(i) => {
                &&& find_from(v@, p@, from as int) == Some(i as int)
                &&& from <= i
                &&& i + p.len() <= v.len()
            },
            None => find_from(v@, p@, from as int) is None,
        },
{
    let mut i: usize = from;
    while p.len() <= v.len() && i <= v.len() - p.len()
        invariant
            from <= i,
            from <= v.len() ==> i <= v.len() + 1,
            find_from(v@, p@, from as int) == find_from(v@, p@, i as int),
        decreases v.len() - i,
    {
        if stands_at(v, p, i) {
            return Some(i);
        }
        assert(i < v.len()) by {
            if i == v.len() {
                assert(v@.subrange(i as int, i as int) =~= p@);
            }
        }
        i += 1;
    }
    None
}

/// What follows `p` at the start of `s`, if `s` starts with it.
pub open spec fn after_prefix(s: Seq<char>, p: Seq<char>) -> Option<Seq<char>> {
    if occurs_at(s, p, 0) {
        Some(s.skip(p.len() as int))
    } else {
        None
    }
}

/// What follows `p` at the start of `v`, if `v` starts with it.
pub fn strip_prefix_chars(v: &Vec<char>, p: &Vec<char>) -> (rest: Option<Vec<char>>)
    ensures
        match rest {
            Some(r) => after_prefix(v@, p@) == Some(r@),
            None => after_prefix(v@, p@) is None,
        },
{
    if stands_at(v, p, 0) {
        Some(slice_chars(v, p.len(), v.len()))
    } else {
        None
    }
}

/// The pieces of `s` between the separators `sep`.
pub open spec fn split_on(s: Seq<char>, sep: char) -> Seq<Seq<char>>
    decreases s.len(),
{
    match find_from(s, seq![sep], 0) {
        Some(i) if 0 <= i < s.len() => seq![s.take(i)] + split_on(s.skip(i + 1), sep),
        _ => seq![s],
    }
}

// ── Joining ─────────────────────────────────────────────────────────────────

/// The texts `parts` one after the other, with `sep` between neighbours.
pub open spec fn joined(parts: Seq<Seq<char>>, sep: Seq<char>) -> Seq<char>
    decreases parts.len(),
{
    if parts.len() == 0 {
        Seq::empty()
    } else if parts.len() == 1 {
        parts[0]
    } else {
        joined(parts.drop_last(), sep) + sep + parts.last()
    }
}

/// The strings of `parts` one after the other, with `sep` between neighbours.
pub fn join(parts: &Vec<String>, sep: &str) -> (out: String)
    ensures
        out@ == joined(texts(parts@), sep@),
{
    let mut out = String::new();
    let mut i: usize = 0;
    let ghost all = texts(parts@);
    while i < parts.len()
        invariant
            i <= parts.len(),
            all == texts(parts@),
            out@ == joined(all.take(i as int), sep@),
        decreases parts.len() - i,
    {
        assert(all.take(i + 1).drop_last() =~= all.take(i as int));
        assert(all.take(i + 1).last() == parts@[i as int]@);
        if i > 0 {
            out.append(sep);
        }
        out.append(parts[i].as_str());
        i += 1;
        assert(out@ =~= joined(all.take(i as int), sep@));
    }
    assert(all.take(i as int) =~= all);
    out
}

// ── Decimal numbers ─────────────────────────────────────────────────────────

/// The decimal digit of a number below ten.
pub open spec fn digit(n: int) -> char {
    (n + 48) as char
}

/// The decimal digits of `n`, without leading zeros.
pub open spec fn decimal(n: nat) -> Seq<char>
    decreases n,
{
    if n < 10 {
        seq![digit(n as int)]
    } else {
        decimal(n / 10).push(digit((n % 10) as int))
    }
}

/// `s` with zeros in front until it is at least `width` long.
pub open spec fn zero_padded(s: Seq<char>, width: nat) -> Seq<char> {
    if s.len() >= width {
        s
    } else {
        Seq::new((width - s.len()) as nat, |i: int| '0') + s
    }
}

proof fn lemma_decimal_digits(n: nat)
    ensures
        decimal(n).len() >= 1,
        forall|i: int| 0 <= i < decimal(n).len() ==> is_digit(#[trigger] decimal(n)[i]),
        digits_value(decimal(n)) == n,
    decreases n,
{
    if n >= 10 {
        lemma_decimal_digits(n / 10);
        assert(decimal(n).drop_last() =~= decimal(n / 10));
    } else {
        reveal_with_fuel(digits_value, 2);
        assert(decimal(n).drop_last() =~= Seq::<char>::empty());
    }
}

/// The decimal digits of `n`, without leading zeros.
pub fn decimal_chars(n: u64) -> (out: Vec<char>)
    ensures
        out@ == decimal(n as nat),
    decreases n,
{
    let last: char = (48 + (n % 10) as u8) as char;
    if n < 10 {
        let mut out: Vec<char> = Vec::new();
        out.push(last);
        assert(out@ =~= seq![digit(n as int)]);
        out
    } else {
        let mut out = decimal_chars(n / 10);
        out.push(last);
        out
    }
}

/// The decimal digits of `n`, with zeros in front until there are at least `width` of them.
pub fn padded_text(n: u64, width: usize) -> (out: String)
    ensures
        out@ == zero_padded(decimal(n as nat), width as nat),
{
    let digits = decimal_chars(n);
    let mut out = String::new();
    let zeros: usize = if digits.len() >= width { 0 } else { width - digits.len() };
    let mut i: usize = 0;
    while i < zeros
        invariant
            i <= zeros,
            out@ == Seq::new(i as nat, |j: int| '0'),
        decreases zeros - i,
    {
        out.push('0');
        i += 1;
        assert(out@ =~= Seq::new(i as nat, |j: int| '0'));
    }
    out.append(string_of(&digits).as_str());
    assert(out@ =~= zero_padded(decimal(n as nat), width as nat));
    out
}

/// The decimal digits of `n`, without leading zeros.
pub fn decimal_text(n: u64) -> (out: String)
    ensures
        out@ == decimal(n as nat),
{
    string_of(&decimal_chars(n))
}

/// One of the ten decimal digits.
pub open spec fn is_digit(c: char) -> bool {
    '0' <= c <= '9'
}

/// The number that a sequence of decimal digits writes.
pub open spec fn digits_value(s: Seq<char>) -> nat
    decreases s.len(),
{
    if s.len() == 0 {
        0
    } else {
        digits_value(s.drop_last()) * 10 + (s.last() as nat - 48) as nat
    }
}

/// The digits of a written number: what follows an optional plus sign.
pub open spec fn unsigned_digits(s: Seq<char>) -> Seq<char> {
    if s.len() > 0 && s[0] == '+' {
        s.drop_first()
    } else {
        s
    }
}

/// The number that `s` writes: an optional plus sign, then one or more decimal
/// digits and nothing else.
pub open spec fn unsigned_value(s: Seq<char>) -> Option<nat> {
    let d = unsigned_digits(s);
    if d.len() > 0 && forall|i: int| 0 <= i < d.len() ==> is_digit(#[trigger] d[i]) {
        Some(digits_value(d))
    } else {
        None
    }
}

/// The number that `v` writes, if it writes one that is at most `max`.
pub fn parse_unsigned(v: &Vec<char>, max: u64) -> (out: Option<u64>)
    ensures
        match unsigned_value(v@) {
            Some(n) if n <= max => out == Some(n as u64),
            _ => out is None,
        },
{
    let from: usize = if v.len() > 0 && v[0] == '+' { 1 } else { 0 };
    let ghost d = unsigned_digits(v@);
    assert(d =~= v@.skip(from as int));
    if from == v.len() {
        return None;
    }
    let mut i: usize = from;
    let mut n: u64 = 0;
    let mut over: bool = false;
    while i < v.len()
        invariant
            from <= i <= v.len(),
            from <= 1,
            d == v@.skip(from as int),
            d == unsigned_digits(v@),
            forall|j: int| 0 <= j < i - from ==> is_digit(#[trigger] d[j]),
            n <= max,
            over ==> digits_value(d.take(i - from)) > max,
            !over ==> digits_value(d.take(i - from)) == n,
        decreases v.len() - i,
    {
        let c: char = v[i];
        assert(d[i - from] == c);
        if !('0' <= c && c <= '9') {
            assert(!is_digit(d[i - from]));
            return None;
        }
        let x: u64 = (c as u32 - 48) as u64;
        assert(d.take(i - from + 1).drop_last() =~= d.take(i - from));
        assert(d.take(i - from + 1).last() == c);
        if !over {
            if n > u64::MAX / 10 || n * 10 > u64::MAX - x || n * 10 + x > max {
                over = true;
            } else {
                n = n * 10 + x;
            }
        }
        i += 1;
    }
    assert(d.take(i - from) =~= d);
    if over {
        None
    } else {
        Some(n)
    }
}

/// Reading back a number that was written in decimal gives that number.
pub proof fn decimal_reads_back(n: nat)
    ensures
        unsigned_value(decimal(n)) == Some(n),
{
    lemma_decimal_digits(n);
    assert(is_digit(decimal(n)[0]));
    assert(unsigned_digits(decimal(n)) =~= decimal(n));
}

proof fn lemma_leading_zeros(zeros: nat, s: Seq<char>)
    ensures
        digits_value(Seq::new(zeros, |i: int| '0') + s) == digits_value(s),
    decreases zeros + s.len(),
{
    let front = Seq::new(zeros, |i: int| '0');
    let all = front + s;
    if s.len() > 0 {
        lemma_leading_zeros(zeros, s.drop_last());
        assert(all.drop_last() =~= front + s.drop_last());
        assert(all.last() == s.last());
    } else if zeros > 0 {
        let fewer = Seq::new((zeros - 1) as nat, |i: int| '0');
        lemma_leading_zeros((zeros - 1) as nat, s);
        assert(all.drop_last() =~= fewer + s);
        assert(all.last() == '0');
    } else {
        assert(all =~= s);
    }
}

/// Two numbers that are written alike with leading zeros are the same.
pub proof fn padded_numbers_differ(a: nat, b: nat, width: nat)
    requires
        zero_padded(decimal(a), width) == zero_padded(decimal(b), width),
    ensures
        a == b,
{
    let (x, y) = (decimal(a), decimal(b));
    lemma_decimal_digits(a);
    lemma_decimal_digits(b);
    if x.len() < width {
        lemma_leading_zeros((width - x.len()) as nat, x);
    }
    if y.len() < width {
        lemma_leading_zeros((width - y.len()) as nat, y);
    }
}

/// Trimming cuts off whitespace and nothing else: what is left is one stretch of the
/// text, all around it is whitespace, and it neither starts nor ends with any.
pub proof fn trimming_cuts_off_whitespace(s: Seq<char>)
    ensures
        exists|i: int, j: int|
            #![trigger s.subrange(i, j)]
            0 <= i <= j <= s.len() && trimmed(s) == s.subrange(i, j) && (forall|k: int|
                0 <= k < i || j <= k < s.len() ==> is_space(#[trigger] s[k])),
        trimmed(s).len() > 0 ==> !is_space(trimmed(s)[0]) && !is_space(trimmed(s).last()),
{
    let a = trimmed_start(s);
    let i = lemma_start_trimmed(s);
    let n = lemma_end_trimmed(a);
    assert(a.take(n) =~= s.subrange(i, i + n));
    assert forall|k: int| 0 <= k < i || i + n <= k < s.len() implies is_space(#[trigger] s[k]) by {
        if k >= i {
            assert(a[k - i] == s[k]);
        }
    }
    if trimmed(s).len() > 0 {
        assert(trimmed(s)[0] == a[0]);
    }
}

/// A text that neither starts nor ends with whitespace is what trimming leaves of it with
/// any whitespace around it.
pub proof fn trimming_leaves_the_text(before: Seq<char>, s: Seq<char>, after: Seq<char>)
    requires
        forall|k: int| 0 <= k < before.len() ==> is_space(#[trigger] before[k]),
        forall|k: int| 0 <= k < after.len() ==> is_space(#[trigger] after[k]),
        s.len() > 0,
        !is_space(s[0]),
        !is_space(s.last()),
    ensures
        trimmed(before + s + after) == s,
    decreases before.len() + after.len(),
{
    let all = before + s + after;
    if before.len() > 0 {
        let rest = before.drop_first();
        assert forall|k: int| 0 <= k < rest.len() implies is_space(#[trigger] rest[k]) by {
            assert(rest[k] == before[k + 1]);
        }
        assert(is_space(before[0]));
        assert(all[0] == before[0]);
        assert(all.drop_first() =~= rest + s + after);
        trimming_leaves_the_text(rest, s, after);
    } else {
        assert(all =~= s + after);
        assert(all[0] == s[0]);
        assert(trimmed_start(all) == all);
        if after.len() > 0 {
            let rest = after.drop_last();
            assert forall|k: int| 0 <= k < rest.len() implies is_space(#[trigger] rest[k]) by {
                assert(rest[k] == after[k]);
            }
            assert(is_space(after[after.len() - 1]));
            assert(all.last() == after.last());
            assert(all.drop_last() =~= s + rest);
            trimming_leaves_the_text(before, s, rest);
            assert(before + s + rest =~= s + rest);
            assert((s + rest)[0] == s[0]);
        } else {
            assert(all =~= s);
        }
    }
}

proof fn lemma_start_trimmed(s: Seq<char>) -> (i: int)
    ensures
        0 <= i <= s.len(),
        trimmed_start(s) == s.skip(i),
        forall|k: int| 0 <= k < i ==> is_space(#[trigger] s[k]),
        i < s.len() ==> !is_space(s[i]),
    decreases s.len(),
{
    if s.len() > 0 && is_space(s[0]) {
        let j = lemma_start_trimmed(s.drop_first());
        assert(s.drop_first().skip(j) =~= s.skip(j + 1));
        assert forall|k: int| 0 <= k < j + 1 implies is_space(#[trigger] s[k]) by {
            if k > 0 {
                assert(s.drop_first()[k - 1] == s[k]);
            }
        }
        j + 1
    } else {
        assert(s.skip(0) =~= s);
        0
    }
}

proof fn lemma_end_trimmed(s: Seq<char>) -> (n: int)
    ensures
        0 <= n <= s.len(),
        trimmed_end(s) == s.take(n),
        forall|k: int| n <= k < s.len() ==> is_space(#[trigger] s[k]),
        n > 0 ==> !is_space(s[n - 1]),
    decreases s.len(),
{
    if s.len() > 0 && is_space(s.last()) {
        let n = lemma_end_trimmed(s.drop_last());
        assert(s.drop_last().take(n) =~= s.take(n));
        assert forall|k: int| n <= k < s.len() implies is_space(#[trigger] s[k]) by {
            if k < s.len() - 1 {
                assert(s.drop_last()[k] == s[k]);
            }
        }
        n
    } else {
        assert(s.take(s.len() as int) =~= s);
        s.len() as int
    }
}

/// Joining texts is joining the first ones, the separator, and joining the others. One
/// text stays as it is, and of none nothing is left.
pub proof fn joining_goes_part_by_part(a: Seq<Seq<char>>, b: Seq<Seq<char>>, one: Seq<char>, sep: Seq<char>)
    ensures
        a.len() > 0 && b.len() > 0 ==> joined(a + b, sep) == joined(a, sep) + sep + joined(b, sep),
        joined(seq![one], sep) == one,
        joined(Seq::empty(), sep) == Seq::<char>::empty(),
    decreases b.len(),
{
    if a.len() > 0 && b.len() > 0 {
        assert((a + b).drop_last() =~= a + b.drop_last());
        assert((a + b).last() == b.last());
        if b.len() > 1 {
            joining_goes_part_by_part(a, b.drop_last(), one, sep);
            assert(joined(a + b, sep) =~= joined(a, sep) + sep + joined(b, sep));
        } else {
            assert(a + b.drop_last() =~= a);
        }
    }
}

/// Splitting at a separator splits what stands before it and what stands after it, and a
/// text without the separator stays whole.
pub proof fn splitting_goes_part_by_part(a: Seq<char>, b: Seq<char>, sep: char)
    ensures
        split_on(a + seq![sep] + b, sep) == split_on(a, sep) + split_on(b, sep),
        !b.contains(sep) ==> split_on(b, sep) == seq![b],
    decreases a.len(),
{
    let p = seq![sep];
    let all = a + p + b;
    match find_from(a, p, 0) {
        Some(i) => {
            lemma_found(a, p, 0);
            lemma_sep_at(a, sep, i);
            assert forall|j: int| 0 <= j < i implies !(#[trigger] occurs_at(all, p, j)) by {
                assert(!occurs_at(a, p, j));
                lemma_sep_at(a, sep, j);
                lemma_sep_at(all, sep, j);
                assert(all[j] == a[j]);
            }
            lemma_sep_at(all, sep, i);
            assert(all[i] == a[i]);
            lemma_first_at(all, p, 0, i);
            assert(all.take(i) =~= a.take(i));
            assert(all.skip(i + 1) =~= a.skip(i + 1) + p + b);
            splitting_goes_part_by_part(a.skip(i + 1), b, sep);
            assert(split_on(all, sep) =~= split_on(a, sep) + split_on(b, sep));
        },
        None => {
            let i = a.len() as int;
            assert forall|j: int| 0 <= j < i implies !(#[trigger] occurs_at(all, p, j)) by {
                lemma_sep_at(all, sep, j);
                assert(all[j] == a[j]);
                lemma_sep_at(a, sep, j);
                if occurs_at(a, p, j) {
                    lemma_not_missed(a, p, 0, j);
                }
            }
            lemma_sep_at(all, sep, i);
            lemma_first_at(all, p, 0, i);
            assert(all.take(i) =~= a);
            assert(all.skip(i + 1) =~= b);
        },
    }
    if !b.contains(sep) {
        assert forall|j: int| 0 <= j implies !(#[trigger] occurs_at(b, p, j)) by {
            lemma_sep_at(b, sep, j);
        }
        lemma_stands_nowhere(b, p, 0);
    }
}

proof fn lemma_sep_at(s: Seq<char>, sep: char, i: int)
    ensures
        occurs_at(s, seq![sep], i) <==> 0 <= i < s.len() && s[i] == sep,
{
    if 0 <= i < s.len() {
        assert(s.subrange(i, i + 1)[0] == s[i]);
        if s[i] == sep {
            assert(s.subrange(i, i + 1) =~= seq![sep]);
        }
    }
}

/// The first place at which a text stands is found.
pub proof fn lemma_first_at(s: Seq<char>, p: Seq<char>, from: int, at: int)
    requires
        0 <= from <= at,
        occurs_at(s, p, at),
        forall|j: int| from <= j < at ==> !(#[trigger] occurs_at(s, p, j)),
    ensures
        find_from(s, p, from) == Some(at),
    decreases at - from,
{
    if from < at {
        assert(!occurs_at(s, p, from));
        lemma_first_at(s, p, from + 1, at);
    }
}

proof fn lemma_not_missed(s: Seq<char>, p: Seq<char>, from: int, at: int)
    requires
        0 <= from <= at,
        occurs_at(s, p, at),
    ensures
        find_from(s, p, from) is Some,
    decreases at - from,
{
    if !occurs_at(s, p, from) {
        lemma_not_missed(s, p, from + 1, at);
    }
}

/// A number in decimal has only digits, each of which counts ten times what the next one
/// does, and no zero in front.
pub proof fn digits_count_tens(n: nat, s: Seq<char>, c: char)
    requires
        '0' <= c <= '9',
    ensures
        digits_value(s.push(c)) == 10 * digits_value(s) + (c as int - '0' as int),
        digits_value(Seq::empty()) == 0,
        digits_value(decimal(n)) == n,
        decimal(n).len() > 0,
        forall|i: int| 0 <= i < decimal(n).len() ==> '0' <= #[trigger] decimal(n)[i] <= '9',
        n > 0 ==> decimal(n)[0] != '0',
{
    assert(s.push(c).drop_last() =~= s);
    lemma_decimal_digits(n);
    lemma_no_leading_zero(n);
}

proof fn lemma_no_leading_zero(n: nat)
    ensures
        n > 0 ==> decimal(n)[0] != '0',
    decreases n,
{
    if n >= 10 {
        lemma_no_leading_zero(n / 10);
        lemma_decimal_digits(n / 10);
        assert(decimal(n)[0] == decimal(n / 10)[0]);
    }
}

/// Zeros in front do not change a number: it has at least so many digits, and no more
/// where fewer would do.
pub proof fn padding_keeps_the_number(n: nat, width: nat)
    ensures
        zero_padded(decimal(n), width).len() == if decimal(n).len() < width {
            width
        } else {
            decimal(n).len()
        },
        forall|i: int|
            0 <= i < zero_padded(decimal(n), width).len() ==> '0' <= (
            #[trigger] zero_padded(decimal(n), width)[i]) <= '9',
        digits_value(zero_padded(decimal(n), width)) == n,
        n < 100 ==> decimal(n).len() <= 2,
        n < 1000 ==> decimal(n).len() <= 3,
{
    lemma_decimal_digits(n);
    reveal_with_fuel(decimal, 4);
    let s = decimal(n);
    let p = zero_padded(s, width);
    if s.len() < width {
        lemma_leading_zeros((width - s.len()) as nat, s);
        assert forall|i: int| 0 <= i < p.len() implies '0' <= (#[trigger] p[i]) <= '9' by {
            let z = width - s.len();
            if i >= z {
                assert(p[i] == s[i - z]);
                assert(is_digit(s[i - z]));
            }
        }
    } else {
        assert forall|i: int| 0 <= i < p.len() implies '0' <= (#[trigger] p[i]) <= '9' by {
            assert(is_digit(s[i]));
        }
    }
}

/// A number is read from its digits, with or without a plus sign before them, and from
/// nothing else.
pub proof fn numbers_are_read_from_digits(s: Seq<char>, i: int)
    ensures
        s.len() > 0 && (forall|k: int| 0 <= k < s.len() ==> '0' <= (#[trigger] s[k]) <= '9')
            ==> unsigned_value(s) == Some(digits_value(s)) && unsigned_value(seq!['+'] + s) == Some(
            digits_value(s),
        ),
        s.len() == 0 ==> unsigned_value(s) is None && unsigned_value(seq!['+'] + s) is None,
        0 <= i < s.len() && !('0' <= s[i] <= '9') && (i > 0 || s[i] != '+') ==> unsigned_value(s) is None,
{
    let p = seq!['+'] + s;
    assert(p.drop_first() =~= s);
    if s.len() > 0 && (forall|k: int| 0 <= k < s.len() ==> '0' <= (#[trigger] s[k]) <= '9') {
        assert(s[0] != '+');
        assert forall|k: int| 0 <= k < s.len() implies is_digit(#[trigger] s[k]) by {}
    }
    if 0 <= i < s.len() && !('0' <= s[i] <= '9') && (i > 0 || s[i] != '+') {
        let d = unsigned_digits(s);
        if s[0] == '+' {
            assert(d[i - 1] == s[i]);
            assert(!is_digit(d[i - 1]));
        } else {
            assert(!is_digit(d[i]));
        }
    }
}

} // verus!
