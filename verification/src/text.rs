//! Text helpers: characters in and out of strings, decimal numbers, white
//! space, splitting and joining.
use vstd::prelude::*;

verus! {

/// `String::push` appends one character to the string.
pub assume_specification[ String::push ](s: &mut String, ch: char)
    ensures
        final(s)@ == old(s)@.push(ch),
;

/// The characters of `s`, in order.
pub fn chars_of(s: &str) -> (chars: Vec<char>)
    ensures
        chars@ == s@,
{
    let mut chars: Vec<char> = Vec::new();
    for c in it: s.chars()
        invariant
            it.seq() == s@,
            chars@ == s@.take(it.index() as int),
    {
        proof {
            assert(s@.take(it.index() + 1) == s@.take(it.index() as int).push(s@[it.index() as int]));
        }
        chars.push(c);
    }
    proof {
        assert(s@.take(s@.len() as int) == s@);
    }
    chars
}

/// The string made of `chars[from..to]`.
pub fn string_of(chars: &Vec<char>, from: usize, to: usize) -> (s: String)
    requires
        from <= to <= chars@.len(),
    ensures
        s@ == chars@.subrange(from as int, to as int),
{
    let mut s = String::new();
    let mut i: usize = from;
    while i < to
        invariant
            from <= i <= to <= chars@.len(),
            s@ == chars@.subrange(from as int, i as int),
        decreases to - i,
    {
        s.push(chars[i]);
        i += 1;
        proof {
            assert(chars@.subrange(from as int, i as int) == chars@.subrange(
                from as int,
                i - 1,
            ).push(chars@[i - 1]));
        }
    }
    s
}

/// A copy of `bytes`.
pub fn copy_bytes(bytes: &[u8]) -> (copy: Vec<u8>)
    ensures
        copy@ == bytes@,
{
    let mut copy: Vec<u8> = Vec::new();
    let mut i: usize = 0;
    while i < bytes.len()
        invariant
            i <= bytes@.len(),
            copy@ == bytes@.take(i as int),
        decreases bytes@.len() - i,
    {
        copy.push(bytes[i]);
        i += 1;
        proof {
            assert(bytes@.take(i as int) == bytes@.take(i - 1).push(bytes@[i - 1]));
        }
    }
    proof {
        assert(bytes@.take(bytes@.len() as int) == bytes@);
    }
    copy
}

/// Whether two byte strings are the same.
pub fn same_bytes(a: &[u8], b: &[u8]) -> (same: bool)
    ensures
        same == (a@ == b@),
{
    if a.len() != b.len() {
        return false;
    }
    let mut i: usize = 0;
    while i < a.len()
        invariant
            i <= a@.len() == b@.len(),
            forall|j: int| 0 <= j < i ==> a@[j] == b@[j],
        decreases a@.len() - i,
    {
        if a[i] != b[i] {
            return false;
        }
        i += 1;
    }
    proof {
        assert(a@ =~= b@);
    }
    true
}

// ---------------------------------------------------------------------------
// Decimal numbers
// ---------------------------------------------------------------------------
/// The character of a digit below ten.
pub open spec fn digit_char(d: int) -> char {
    (('0' as int) + d) as char
}

/// Whether `c` is one of `0` to `9`.
pub open spec fn is_digit(c: char) -> bool {
    '0' <= c <= '9'
}

/// The value of a digit character.
pub open spec fn digit_value(c: char) -> int {
    (c as int) - ('0' as int)
}

/// `n` written in base ten, without leading zeros.
pub open spec fn digits(n: nat) -> Seq<char>
    decreases n,
{
    if n < 10 {
        seq![digit_char(n as int)]
    } else {
        digits(n / 10).push(digit_char((n % 10) as int))
    }
}

/// `n` written in base ten, with a leading minus sign when it is negative.
pub open spec fn decimal(n: int) -> Seq<char> {
    if n < 0 {
        seq!['-'] + digits((-n) as nat)
    } else {
        digits(n as nat)
    }
}

/// The number that a row of digits stands for in base ten.
pub open spec fn digits_value(s: Seq<char>) -> int
    decreases s.len(),
{
    if s.len() == 0 {
        0
    } else {
        digits_value(s.drop_last()) * 10 + digit_value(s.last())
    }
}

/// Whether `s` is a row of one or more digits.
pub open spec fn all_digits(s: Seq<char>) -> bool {
    s.len() > 0 && forall|i: int| 0 <= i < s.len() ==> is_digit(#[trigger] s[i])
}

/// The signed 32-bit number written in `s`: an optional `+` or `-`, then one
/// or more digits and nothing else. `None` for any other text, and for a
/// number that is out of range.
pub open spec fn parsed_i32(s: Seq<char>) -> Option<i32> {
    let signed = s.len() > 0 && (s[0] == '-' || s[0] == '+');
    let row = if signed {
        s.drop_first()
    } else {
        s
    };
    let value = if signed && s[0] == '-' {
        -digits_value(row)
    } else {
        digits_value(row)
    };
    if all_digits(row) && i32::MIN <= value <= i32::MAX {
        Some(value as i32)
    } else {
        None
    }
}

/// The decimal text of `n`.
pub fn decimal_string(n: i64) -> (s: String)
    requires
        n > i64::MIN,
    ensures
        s@ == decimal(n as int),
{
    let mut s = String::new();
    if n < 0 {
        s.push('-');
        push_digits(&mut s, (-n) as u64);
        proof {
            assert(s@ == decimal(n as int));
        }
    } else {
        push_digits(&mut s, n as u64);
        proof {
            assert(s@ == decimal(n as int));
        }
    }
    s
}

fn push_digits(s: &mut String, n: u64)
    ensures
        final(s)@ == old(s)@ + digits(n as nat),
    decreases n,
{
    if n >= 10 {
        push_digits(s, n / 10);
    }
    let d: u8 = (n % 10) as u8;
    s.push((48 + d) as char);
    proof {
        if n >= 10 {
            assert(digits(n as nat) == digits((n / 10) as nat).push(digit_char((n % 10) as int)));
        } else {
            assert(digits(n as nat) == seq![digit_char(n as int)]);
        }
    }
}

/// Reads a signed 32-bit number written in `chars`, as [`parsed_i32`] says.
pub fn parse_i32(chars: &Vec<char>) -> (n: Option<i32>)
    ensures
        n == parsed_i32(chars@),
{
    let len = chars.len();
    let signed = len > 0 && (chars[0] == '-' || chars[0] == '+');
    let negative = signed && chars[0] == '-';
    let start: usize = if signed {
        1
    } else {
        0
    };
    let ghost row = chars@.skip(start as int);
    proof {
        assert(row == (if signed {
            chars@.drop_first()
        } else {
            chars@
        }));
    }
    if start == len {
        return None;
    }
    let mut value: i64 = 0;
    let mut i: usize = start;
    while i < len
        invariant
            start <= i <= len == chars@.len(),
            start < len,
            row == chars@.skip(start as int),
            0 <= value <= 0x8000_0000,
            value == digits_value(row.take(i - start)),
            forall|j: int| 0 <= j < i - start ==> is_digit(#[trigger] row[j]),
            negative == (signed && chars@[0] == '-'),
            row == (if signed {
                chars@.drop_first()
            } else {
                chars@
            }),
            signed == (chars@.len() > 0 && (chars@[0] == '-' || chars@[0] == '+')),
        decreases len - i,
    {
        let c = chars[i];
        proof {
            assert(row[i - start] == c);
            assert(row.take(i - start + 1).drop_last() == row.take(i - start));
            assert(row.take(i - start + 1).last() == c);
        }
        if !('0' <= c && c <= '9') {
            proof {
                assert(!all_digits(row));
            }
            return None;
        }
        let d: i64 = (c as u32) as i64 - 48;
        value = value * 10 + d;
        i += 1;
        if value > 0x8000_0000 {
            proof {
                if all_digits(row) {
                    lemma_prefix_value(row, (i - start) as nat);
                }
            }
            return None;
        }
    }
    proof {
        assert(row.take(len - start) == row);
        assert(all_digits(row));
    }
    if negative {
        Some((-value) as i32)
    } else if value <= 0x7fff_ffff {
        Some(value as i32)
    } else {
        None
    }
}

proof fn lemma_digits_value_nonneg(s: Seq<char>)
    requires
        forall|i: int| 0 <= i < s.len() ==> is_digit(#[trigger] s[i]),
    ensures
        digits_value(s) >= 0,
    decreases s.len(),
{
    if s.len() > 0 {
        assert forall|i: int| 0 <= i < s.drop_last().len() implies is_digit(
            #[trigger] s.drop_last()[i],
        ) by {
            assert(is_digit(s[i]));
        }
        lemma_digits_value_nonneg(s.drop_last());
        assert(is_digit(s[s.len() - 1]));
    }
}

proof fn lemma_prefix_value(s: Seq<char>, k: nat)
    requires
        forall|i: int| 0 <= i < s.len() ==> is_digit(#[trigger] s[i]),
        k <= s.len(),
    ensures
        digits_value(s.take(k as int)) <= digits_value(s),
    decreases s.len(),
{
    if k == s.len() {
        assert(s.take(k as int) == s);
    } else {
        let t = s.drop_last();
        assert forall|i: int| 0 <= i < t.len() implies is_digit(#[trigger] t[i]) by {
            assert(is_digit(s[i]));
        }
        lemma_prefix_value(t, k);
        assert(t.take(k as int) == s.take(k as int));
        lemma_digits_value_nonneg(t);
        assert(is_digit(s[s.len() - 1]));
    }
}

proof fn lemma_digits_roundtrip(n: nat)
    ensures
        all_digits(digits(n)),
        digits_value(digits(n)) == n,
    decreases n,
{
    if n < 10 {
        let s = digits(n);
        assert(s.drop_last() == Seq::<char>::empty());
        assert(digits_value(s.drop_last()) == 0);
        assert(digit_value(s.last()) == n);
    } else {
        lemma_digits_roundtrip(n / 10);
        let s = digits(n);
        let t = digits(n / 10);
        assert(s.drop_last() == t);
        assert(digit_value(s.last()) == n % 10);
        assert forall|i: int| 0 <= i < s.len() implies is_digit(#[trigger] s[i]) by {
            if i < t.len() {
                assert(is_digit(t[i]));
            }
        }
    }
}

/// Reading a number back from its decimal text gives the number.
pub proof fn decimal_parses_back(n: i32)
    ensures
        parsed_i32(decimal(n as int)) == Some(n),
{
    let s = decimal(n as int);
    if n < 0 {
        let m = (-(n as int)) as nat;
        lemma_digits_roundtrip(m);
        assert(s.drop_first() == digits(m));
        assert(s[0] == '-');
    } else {
        lemma_digits_roundtrip(n as nat);
        assert(is_digit(s[0]));
    }
}

// ---------------------------------------------------------------------------
// White space
// ---------------------------------------------------------------------------
/// Whether `c` has the Unicode property `White_Space`.
pub open spec fn white_space(c: char) -> bool {
    ||| '\u{9}' <= c <= '\u{d}'
    ||| c == '\u{20}'
    ||| c == '\u{85}'
    ||| c == '\u{a0}'
    ||| c == '\u{1680}'
    ||| '\u{2000}' <= c <= '\u{200a}'
    ||| c == '\u{2028}'
    ||| c == '\u{2029}'
    ||| c == '\u{202f}'
    ||| c == '\u{205f}'
    ||| c == '\u{3000}'
}

/// `s` without the white space that it begins with.
pub open spec fn trimmed_start(s: Seq<char>) -> Seq<char>
    decreases s.len(),
{
    if s.len() > 0 && white_space(s[0]) {
        trimmed_start(s.drop_first())
    } else {
        s
    }
}

/// `s` without the white space that it ends with.
pub open spec fn trimmed_end(s: Seq<char>) -> Seq<char>
    decreases s.len(),
{
    if s.len() > 0 && white_space(s.last()) {
        trimmed_end(s.drop_last())
    } else {
        s
    }
}

/// `s` without the white space at either end.
pub open spec fn trimmed(s: Seq<char>) -> Seq<char> {
    trimmed_end(trimmed_start(s))
}

/// Whether `c` is white space.
pub fn is_white_space(c: char) -> (yes: bool)
    ensures
        yes == white_space(c),
{
    ('\u{9}' <= c && c <= '\u{d}') || c == '\u{20}' || c == '\u{85}' || c == '\u{a0}' || c
        == '\u{1680}' || ('\u{2000}' <= c && c <= '\u{200a}') || c == '\u{2028}' || c == '\u{2029}'
        || c == '\u{202f}' || c == '\u{205f}' || c == '\u{3000}'
}

/// The decimal text of a number is not empty and holds no white space.
pub proof fn decimal_has_no_space(n: int)
    ensures
        decimal(n).len() > 0,
        forall|i: int| 0 <= i < decimal(n).len() ==> !white_space(#[trigger] decimal(n)[i]),
{
    let m = if n < 0 {
        (-n) as nat
    } else {
        n as nat
    };
    lemma_digits_roundtrip(m);
    let row = digits(m);
    let s = decimal(n);
    assert forall|i: int| 0 <= i < s.len() implies !white_space(#[trigger] s[i]) by {
        if n < 0 {
            if i > 0 {
                assert(s[i] == row[i - 1]);
                assert(is_digit(row[i - 1]));
            }
        } else {
            assert(is_digit(row[i]));
        }
    }
}

/// `chars` without the white space at either end.
pub fn trim(chars: &Vec<char>) -> (out: Vec<char>)
    ensures
        out@ == trimmed(chars@),
{
    let mut lo: usize = 0;
    proof {
        assert(chars@.skip(0) == chars@);
    }
    while lo < chars.len() && is_white_space(chars[lo])
        invariant
            lo <= chars@.len(),
            trimmed_start(chars@.skip(lo as int)) == trimmed_start(chars@),
        decreases chars@.len() - lo,
    {
        proof {
            assert(chars@.skip(lo as int).drop_first() == chars@.skip(lo + 1));
        }
        lo += 1;
    }
    let mut hi: usize = chars.len();
    let ghost rest = chars@.skip(lo as int);
    proof {
        assert(trimmed_start(chars@) == rest);
        assert(chars@.subrange(lo as int, hi as int) == rest);
    }
    while lo < hi && is_white_space(chars[hi - 1])
        invariant
            lo <= hi <= chars@.len(),
            trimmed_end(chars@.subrange(lo as int, hi as int)) == trimmed_end(rest),
        decreases hi,
    {
        proof {
            assert(chars@.subrange(lo as int, hi as int).drop_last() == chars@.subrange(
                lo as int,
                hi - 1,
            ));
        }
        hi -= 1;
    }
    let mut out: Vec<char> = Vec::new();
    let mut i: usize = lo;
    while i < hi
        invariant
            lo <= i <= hi <= chars@.len(),
            out@ == chars@.subrange(lo as int, i as int),
        decreases hi - i,
    {
        out.push(chars[i]);
        i += 1;
        proof {
            assert(chars@.subrange(lo as int, i as int) == chars@.subrange(lo as int, i - 1).push(
                chars@[i - 1],
            ));
        }
    }
    out
}

// ---------------------------------------------------------------------------
// Splitting and joining
// ---------------------------------------------------------------------------
/// The stretches of `s` between one `sep` and the next, in order; one more
/// stretch than there are separators.
pub open spec fn split_on<T>(s: Seq<T>, sep: T) -> Seq<Seq<T>>
    decreases s.len(),
{
    if s.len() == 0 {
        seq![Seq::empty()]
    } else {
        let parts = split_on(s.drop_last(), sep);
        if s.last() == sep {
            parts.push(Seq::empty())
        } else {
            parts.drop_last().push(parts.last().push(s.last()))
        }
    }
}

/// The parts one after the other, with `sep` between neighbours.
pub open spec fn joined<T>(parts: Seq<Seq<T>>, sep: T) -> Seq<T>
    decreases parts.len(),
{
    if parts.len() == 0 {
        Seq::empty()
    } else if parts.len() == 1 {
        parts[0]
    } else {
        joined(parts.drop_last(), sep).push(sep) + parts.last()
    }
}

proof fn lemma_split_nonempty<T>(s: Seq<T>, sep: T)
    ensures
        split_on(s, sep).len() > 0,
    decreases s.len(),
{
    if s.len() > 0 {
        lemma_split_nonempty(s.drop_last(), sep);
    }
}

proof fn lemma_split_extend<T>(s: Seq<T>, t: Seq<T>, sep: T)
    requires
        !t.contains(sep),
    ensures
        split_on(s + t, sep) == split_on(s, sep).drop_last().push(split_on(s, sep).last() + t),
    decreases t.len(),
{
    lemma_split_nonempty(s, sep);
    let parts = split_on(s, sep);
    if t.len() == 0 {
        assert(s + t == s);
        assert(parts.last() + t == parts.last());
        assert(parts.drop_last().push(parts.last()) == parts);
    } else {
        let u = t.drop_last();
        assert(t.contains(t.last()));
        assert forall|x: T| u.contains(x) implies t.contains(x) by {
            let i = choose|i: int| 0 <= i < u.len() && u[i] == x;
            assert(t[i] == x);
        }
        lemma_split_extend(s, u, sep);
        assert((s + t).drop_last() == s + u);
        assert((s + t).last() == t.last());
        let before = parts.drop_last().push(parts.last() + u);
        assert(before.drop_last() == parts.drop_last());
        assert((parts.last() + u).push(t.last()) == parts.last() + t);
    }
}

/// Splitting undoes joining: parts that do not hold the separator come back as
/// they were.
pub proof fn split_undoes_join<T>(parts: Seq<Seq<T>>, sep: T)
    requires
        parts.len() > 0,
        forall|i: int| 0 <= i < parts.len() ==> !(#[trigger] parts[i]).contains(sep),
    ensures
        split_on(joined(parts, sep), sep) == parts,
    decreases parts.len(),
{
    if parts.len() == 1 {
        let nothing = Seq::<T>::empty();
        lemma_split_extend(nothing, parts[0], sep);
        assert(nothing + parts[0] == parts[0]);
        assert(split_on(nothing, sep) == seq![nothing]);
        assert(split_on(parts[0], sep) =~= parts);
    } else {
        let front = parts.drop_last();
        assert forall|i: int| 0 <= i < front.len() implies !(#[trigger] front[i]).contains(sep) by {
            assert(front[i] == parts[i]);
        }
        split_undoes_join(front, sep);
        let head = joined(front, sep).push(sep);
        assert(head.drop_last() == joined(front, sep));
        assert(split_on(head, sep) == front.push(Seq::empty()));
        lemma_split_extend(head, parts.last(), sep);
        assert(front.push(Seq::empty()).drop_last() == front);
        assert(Seq::<T>::empty() + parts.last() == parts.last());
        assert(front.push(parts.last()) == parts);
    }
}

/// The lines of a text: `chars` split at each line feed.
pub fn split_lines(chars: &Vec<char>) -> (lines: Vec<Vec<char>>)
    ensures
        lines@.map_values(|l: Vec<char>| l@) == split_on(chars@, '\n'),
{
    let mut done: Vec<Vec<char>> = Vec::new();
    let mut current: Vec<char> = Vec::new();
    let mut i: usize = 0;
    let ghost view = |l: Vec<char>| l@;
    proof {
        assert(chars@.take(0) == Seq::<char>::empty());
        assert(done@.map_values(view).push(current@) == split_on(chars@.take(0), '\n'));
    }
    while i < chars.len()
        invariant
            i <= chars@.len(),
            view == (|l: Vec<char>| l@),
            done@.map_values(view).push(current@) == split_on(chars@.take(i as int), '\n'),
        decreases chars@.len() - i,
    {
        let c = chars[i];
        let ghost before = done@.map_values(view).push(current@);
        proof {
            assert(chars@.take(i + 1).drop_last() == chars@.take(i as int));
            assert(chars@.take(i + 1).last() == c);
            assert(before.drop_last() == done@.map_values(view));
            assert(before.last() == current@);
        }
        if c == '\n' {
            done.push(current);
            current = Vec::new();
            proof {
                assert(done@.map_values(view) == before);
                assert(current@ == Seq::<char>::empty());
            }
        } else {
            current.push(c);
        }
        i += 1;
    }
    proof {
        assert(chars@.take(chars@.len() as int) == chars@);
    }
    let ghost was = done@;
    let ghost last = current@;
    done.push(current);
    proof {
        assert(done@.map_values(view) == was.map_values(view).push(last));
    }
    done
}

/// `bytes` split at each `sep`.
pub fn split_bytes(bytes: &[u8], sep: u8) -> (parts: Vec<Vec<u8>>)
    ensures
        parts@.map_values(|p: Vec<u8>| p@) == split_on(bytes@, sep),
{
    let mut done: Vec<Vec<u8>> = Vec::new();
    let mut current: Vec<u8> = Vec::new();
    let mut i: usize = 0;
    let ghost view = |p: Vec<u8>| p@;
    proof {
        assert(bytes@.take(0) == Seq::<u8>::empty());
        assert(done@.map_values(view).push(current@) == split_on(bytes@.take(0), sep));
    }
    while i < bytes.len()
        invariant
            i <= bytes@.len(),
            view == (|p: Vec<u8>| p@),
            done@.map_values(view).push(current@) == split_on(bytes@.take(i as int), sep),
        decreases bytes@.len() - i,
    {
        let b = bytes[i];
        let ghost before = done@.map_values(view).push(current@);
        proof {
            assert(bytes@.take(i + 1).drop_last() == bytes@.take(i as int));
            assert(bytes@.take(i + 1).last() == b);
            assert(before.drop_last() == done@.map_values(view));
            assert(before.last() == current@);
        }
        if b == sep {
            done.push(current);
            current = Vec::new();
            proof {
                assert(done@.map_values(view) == before);
                assert(current@ == Seq::<u8>::empty());
            }
        } else {
            current.push(b);
        }
        i += 1;
    }
    proof {
        assert(bytes@.take(bytes@.len() as int) == bytes@);
    }
    let ghost was = done@;
    let ghost last = current@;
    done.push(current);
    proof {
        assert(done@.map_values(view) == was.map_values(view).push(last));
    }
    done
}

/// No stretch between separators holds one.
pub proof fn split_parts_hold_no_separator<T>(s: Seq<T>, sep: T)
    ensures
        split_on(s, sep).len() > 0,
        forall|i: int|
            0 <= i < split_on(s, sep).len() ==> !(#[trigger] split_on(s, sep)[i]).contains(sep),
    decreases s.len(),
{
    let parts = split_on(s, sep);
    if s.len() > 0 {
        split_parts_hold_no_separator(s.drop_last(), sep);
        let before = split_on(s.drop_last(), sep);
        assert forall|i: int| 0 <= i < parts.len() implies !(#[trigger] parts[i]).contains(sep) by {
            if i < before.len() {
                assert(!before[i].contains(sep));
            }
            if s.last() != sep && i == parts.len() - 1 {
                let part = before.last().push(s.last());
                assert(parts[i] == part);
                if part.contains(sep) {
                    let j = choose|j: int| 0 <= j < part.len() && part[j] == sep;
                    assert(before.last()[j] == sep);
                }
            }
        }
    }
}

// ---------------------------------------------------------------------------
// Bytes that may not be text
// ---------------------------------------------------------------------------
/// What `String::from_utf8_lossy` makes of `bytes`.
pub uninterp spec fn utf8_lossy(bytes: Seq<u8>) -> Seq<char>;

/// Calls `String::from_utf8_lossy`. Its result is a function of the bytes
/// alone, named [`utf8_lossy`]; bytes that are valid UTF-8 come out as the
/// text that they encode, and a zero character comes of a zero byte only. What
/// stands in for the other bytes is left unsaid.
#[verifier::external_body]
pub(crate) fn lossy_string(bytes: &[u8]) -> (s: String)
    ensures
        s@ == utf8_lossy(bytes@),
        vstd::utf8::valid_utf8(bytes@) ==> s@ == vstd::utf8::decode_utf8(bytes@),
        !bytes@.contains(0u8) ==> !s@.contains('\0'),
{
    String::from_utf8_lossy(bytes).into_owned()
}

// ---------------------------------------------------------------------------
// Laws
// ---------------------------------------------------------------------------
/// Joining puts one separator between neighbours and nothing else: a part more
/// adds the separator and the part.
pub proof fn joining_one_more<T>(parts: Seq<Seq<T>>, part: Seq<T>, sep: T)
    ensures
        joined(Seq::<Seq<T>>::empty(), sep) == Seq::<T>::empty(),
        joined(seq![part], sep) == part,
        parts.len() > 0 ==> joined(parts.push(part), sep) == joined(parts, sep) + seq![sep] + part,
{
    if parts.len() > 0 {
        assert(parts.push(part).drop_last() =~= parts);
        assert(joined(parts, sep).push(sep) + part =~= joined(parts, sep) + seq![sep] + part);
    }
}

/// Joining undoes splitting: no element is lost, added or moved.
pub proof fn join_undoes_split<T>(s: Seq<T>, sep: T)
    ensures
        joined(split_on(s, sep), sep) == s,
    decreases s.len(),
{
    let parts = split_on(s, sep);
    if s.len() == 0 {
        joining_one_more(Seq::empty(), Seq::empty(), sep);
        assert(parts =~= seq![Seq::<T>::empty()]);
        assert(joined(parts, sep) =~= s);
    } else {
        let before = split_on(s.drop_last(), sep);
        join_undoes_split(s.drop_last(), sep);
        lemma_split_nonempty(s.drop_last(), sep);
        if s.last() == sep {
            joining_one_more(before, Seq::empty(), sep);
            assert(joined(parts, sep) =~= s);
        } else {
            let front = before.drop_last();
            let longer = before.last().push(s.last());
            joining_one_more(front, before.last(), sep);
            joining_one_more(front, longer, sep);
            assert(front.push(before.last()) =~= before);
            assert(parts =~= front.push(longer));
            assert(s =~= s.drop_last().push(s.last()));
            if front.len() == 0 {
                assert(before =~= seq![before.last()]);
                assert(parts =~= seq![longer]);
            } else {
                let head = joined(front, sep) + seq![sep];
                assert((head + before.last()).push(s.last()) =~= head + longer);
            }
        }
    }
}

/// Splitting at a separator splits what is before it and what is after it.
pub proof fn split_around_a_separator<T>(a: Seq<T>, b: Seq<T>, sep: T)
    ensures
        split_on(a + seq![sep] + b, sep) == split_on(a, sep) + split_on(b, sep),
{
    let x = split_on(a, sep);
    let y = split_on(b, sep);
    split_parts_hold_no_separator(a, sep);
    split_parts_hold_no_separator(b, sep);
    join_undoes_split(a, sep);
    join_undoes_split(b, sep);
    lemma_join_concat(x, y, sep);
    let both = x + y;
    assert forall|i: int| 0 <= i < both.len() implies !(#[trigger] both[i]).contains(sep) by {
        if i < x.len() {
            assert(both[i] == x[i]);
        } else {
            assert(both[i] == y[i - x.len()]);
        }
    }
    split_undoes_join(both, sep);
}

proof fn lemma_join_concat<T>(x: Seq<Seq<T>>, y: Seq<Seq<T>>, sep: T)
    requires
        x.len() > 0,
        y.len() > 0,
    ensures
        joined(x + y, sep) == joined(x, sep) + seq![sep] + joined(y, sep),
    decreases y.len(),
{
    let front = y.drop_last();
    let last = y.last();
    assert((x + y) =~= (x + front).push(last));
    joining_one_more(x + front, last, sep);
    joining_one_more(front, last, sep);
    if y.len() == 1 {
        assert(y =~= seq![last]);
        assert(x + front =~= x);
    } else {
        assert(front.push(last) =~= y);
        lemma_join_concat(x, front, sep);
        assert(joined(x + y, sep) =~= joined(x, sep) + seq![sep] + joined(y, sep));
    }
}

/// Decimal text: one digit for a number below ten; one digit more for each
/// further place; a minus sign before the text of the opposite number.
pub proof fn decimal_place_by_place(n: int, d: int)
    requires
        0 <= d < 10,
    ensures
        decimal(d) == seq![(48 + d) as char],
        n > 0 ==> decimal(10 * n + d) == decimal(n).push((48 + d) as char),
        n > 0 ==> decimal(-n) == seq!['-'] + decimal(n),
{
    if n > 0 {
        let m = (10 * n + d) as nat;
        assert(m / 10 == n as nat);
        assert(m % 10 == d as nat);
    }
}

/// Whether `s` is a row of one or more of the digits `0` to `9`.
pub open spec fn is_digit_row(s: Seq<char>) -> bool {
    s.len() > 0 && forall|i: int| 0 <= i < s.len() ==> '0' <= (#[trigger] s[i]) <= '9'
}

/// A number is read digit by digit, in base ten; a sign before the digits may
/// turn it around; and a number that has become too large stays too large.
pub proof fn numbers_are_read_digit_by_digit(row: Seq<char>, c: char)
    requires
        is_digit_row(row),
        '0' <= c <= '9',
    ensures
        ({
            let d = c as int - 48;
            let minus = seq!['-'] + row;
            &&& parsed_i32(seq![c]) == Some(d as i32)
            &&& parsed_i32(seq!['-', c]) == Some((-d) as i32)
            &&& parsed_i32(seq!['+'] + row) == parsed_i32(row)
            &&& parsed_i32(row.push(c)) == (match parsed_i32(row) {
                Some(v) => if v * 10 + d <= 0x7fff_ffff {
                    Some((v * 10 + d) as i32)
                } else {
                    None
                },
                None => None,
            })
            &&& parsed_i32(minus.push(c)) == (match parsed_i32(minus) {
                Some(v) => if v * 10 - d >= -0x8000_0000 {
                    Some((v * 10 - d) as i32)
                } else {
                    None
                },
                None => None,
            })
        }),
{
    let more = row.push(c);
    assert(more.drop_last() =~= row);
    assert forall|i: int| 0 <= i < row.len() implies is_digit(#[trigger] row[i]) by {}
    assert forall|i: int| 0 <= i < more.len() implies is_digit(#[trigger] more[i]) by {
        if i < row.len() {
            assert(more[i] == row[i]);
        }
    }
    lemma_digits_value_nonneg(row);
    assert(digits_value(more) == digits_value(row) * 10 + digit_value(c));
    let one = seq![c];
    assert(one.drop_last() =~= Seq::<char>::empty());
    assert(digits_value(one.drop_last()) == 0);
    assert(digits_value(one) == digit_value(c));
    assert(all_digits(one));
    assert(seq!['-', c].drop_first() =~= one);
    assert((seq!['+'] + row).drop_first() =~= row);
    assert((seq!['-'] + row).drop_first() =~= row);
    assert((seq!['-'] + row).push(c).drop_first() =~= more);
    assert(is_digit(row[0]));
    assert(is_digit(more[0]));
}

/// Anything but digits behind an optional sign is no number.
pub proof fn other_text_is_no_number(s: Seq<char>)
    ensures
        parsed_i32(Seq::<char>::empty()) is None,
        parsed_i32(seq!['-']) is None,
        parsed_i32(seq!['+']) is None,
        s.len() > 0 && !is_digit_row(s) && s[0] != '-' && s[0] != '+' ==> parsed_i32(s) is None,
        !is_digit_row(s) ==> parsed_i32(seq!['-'] + s) is None && parsed_i32(seq!['+'] + s) is None,
{
    assert(seq!['-'].drop_first() =~= Seq::<char>::empty());
    assert(seq!['+'].drop_first() =~= Seq::<char>::empty());
    assert((seq!['-'] + s).drop_first() =~= s);
    assert((seq!['+'] + s).drop_first() =~= s);
    if all_digits(s) {
        assert forall|i: int| 0 <= i < s.len() implies '0' <= (#[trigger] s[i]) <= '9' by {
            assert(is_digit(s[i]));
        }
    }
}

/// Trimming takes away the white space at both ends and nothing else.
pub proof fn trimming_leaves_the_middle(before: Seq<char>, middle: Seq<char>, after: Seq<char>)
    requires
        forall|i: int| 0 <= i < before.len() ==> white_space(#[trigger] before[i]),
        forall|i: int| 0 <= i < after.len() ==> white_space(#[trigger] after[i]),
        middle.len() > 0 ==> !white_space(middle[0]) && !white_space(middle.last()),
    ensures
        trimmed(before + middle + after) == middle,
{
    lemma_trim_start(before, middle + after);
    assert(before + middle + after =~= before + (middle + after));
    if middle.len() == 0 {
        assert(middle + after =~= after);
        lemma_trim_start(after, Seq::empty());
        assert(after + Seq::<char>::empty() =~= after);
        assert(trimmed_start(Seq::<char>::empty()) == Seq::<char>::empty());
        assert(trimmed_start(before + (middle + after)) == Seq::<char>::empty());
    } else {
        assert((middle + after)[0] == middle[0]);
        assert(trimmed_start(middle + after) == middle + after);
        lemma_trim_end(middle, after);
    }
    assert(trimmed(before + middle + after) =~= middle);
}

proof fn lemma_trim_start(before: Seq<char>, rest: Seq<char>)
    requires
        forall|i: int| 0 <= i < before.len() ==> white_space(#[trigger] before[i]),
    ensures
        trimmed_start(before + rest) == trimmed_start(rest),
    decreases before.len(),
{
    if before.len() == 0 {
        assert(before + rest =~= rest);
    } else {
        let fewer = before.drop_first();
        assert(white_space(before[0]));
        assert forall|i: int| 0 <= i < fewer.len() implies white_space(#[trigger] fewer[i]) by {
            assert(white_space(before[i + 1]));
        }
        lemma_trim_start(fewer, rest);
        assert((before + rest).drop_first() =~= fewer + rest);
    }
}

proof fn lemma_trim_end(rest: Seq<char>, after: Seq<char>)
    requires
        forall|i: int| 0 <= i < after.len() ==> white_space(#[trigger] after[i]),
        rest.len() > 0,
        !white_space(rest.last()),
    ensures
        trimmed_end(rest + after) == rest,
    decreases after.len(),
{
    if after.len() == 0 {
        assert(rest + after =~= rest);
    } else {
        let fewer = after.drop_last();
        assert(white_space(after[after.len() - 1]));
        assert forall|i: int| 0 <= i < fewer.len() implies white_space(#[trigger] fewer[i]) by {
            assert(white_space(after[i]));
        }
        lemma_trim_end(rest, fewer);
        assert((rest + after).drop_last() =~= rest + fewer);
    }
}

} // verus!
