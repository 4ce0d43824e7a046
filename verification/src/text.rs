//! File names as sequences of characters: extension, stem, numbers and the
//! order of text.

use vstd::prelude::*;

verus! {

/// `d` is the position of the last `.` in `name`.
pub open spec fn is_last_dot(name: Seq<char>, d: int) -> bool {
    &&& 0 <= d < name.len()
    &&& name[d] == '.'
    &&& forall|j: int| d < j < name.len() ==> name[j] != '.'
}

/// `name` has a last `.` that is not its first character: the dot that parts
/// stem and extension. A name without a dot, or whose only dot leads it, has
/// none.
pub open spec fn has_split(name: Seq<char>) -> bool {
    exists|d: int| d > 0 && is_last_dot(name, d)
}

/// The position of the dot that parts stem and extension of `name`.
pub open spec fn split_point(name: Seq<char>) -> int
    recommends
        has_split(name),
{
    choose|d: int| d > 0 && is_last_dot(name, d)
}

/// The extension of a file name: what follows its last dot. There is none if
/// the name has no dot, or if its only dot is its first character.
pub open spec fn spec_extension(name: Seq<char>) -> Option<Seq<char>> {
    if has_split(name) {
        Some(name.skip(split_point(name) + 1))
    } else {
        None
    }
}

/// The stem of a file name: what stands before its last dot, or the whole
/// name where it has no extension.
pub open spec fn spec_stem(name: Seq<char>) -> Seq<char> {
    if has_split(name) {
        name.take(split_point(name))
    } else {
        name
    }
}

/// A name has at most one last dot.
pub proof fn lemma_last_dot_unique(name: Seq<char>, d1: int, d2: int)
    requires
        is_last_dot(name, d1),
        is_last_dot(name, d2),
    ensures
        d1 == d2,
{
}

/// A name with an extension is its stem, a dot and the extension.
pub proof fn lemma_stem_dot_extension(name: Seq<char>)
    requires
        has_split(name),
    ensures
        name == spec_stem(name) + seq!['.'] + spec_extension(name)->Some_0,
        spec_stem(name).len() > 0,
        !spec_extension(name)->Some_0.contains('.'),
{
    let d = split_point(name);
    let ext = name.skip(d + 1);
    assert(name =~= name.take(d) + seq!['.'] + ext);
    if ext.contains('.') {
        let k = choose|k: int| 0 <= k < ext.len() && ext[k] == '.';
        assert(name[d + 1 + k] == '.');
    }
}

/// The characters of `s`, in order.
pub fn chars_of(s: &str) -> (r: Vec<char>)
    ensures
        r@ == s@,
{
    let mut out: Vec<char> = Vec::new();
    for c in it: s.chars()
        invariant
            out@ == it.seq().take(it.index()),
            it.seq() == s@,
    {
        out.push(c);
    }
    out
}

/// Finds the last `.` among `chars`.
pub fn find_last_dot(chars: &Vec<char>) -> (r: Option<usize>)
    ensures
        match r {
            Some(d) => is_last_dot(chars@, d as int),
            None => !chars@.contains('.'),
        },
{
    let mut i: usize = chars.len();
    while i > 0
        invariant
            i <= chars.len(),
            forall|j: int| i <= j < chars.len() ==> chars@[j] != '.',
        decreases i,
    {
        i -= 1;
        if chars[i] == '.' {
            return Some(i);
        }
    }
    None
}

/// Where `name` parts into stem and extension: the position of its last dot,
/// unless that dot is the first character or there is none.
pub fn find_split(name: &str) -> (r: Option<usize>)
    ensures
        r is Some <==> has_split(name@),
        r matches Some(d) ==> d == split_point(name@) && 0 < d < name@.len(),
{
    let chars = chars_of(name);
    match find_last_dot(&chars) {
        Some(d) => {
            if d > 0 {
                proof {
                    lemma_split_found(name@, d as int);
                }
                Some(d)
            } else {
                proof {
                    lemma_no_split_leading_dot(name@);
                }
                None
            }
        },
        None => None,
    }
}

proof fn lemma_split_found(name: Seq<char>, d: int)
    requires
        d > 0,
        is_last_dot(name, d),
    ensures
        has_split(name),
        split_point(name) == d,
{
    lemma_last_dot_unique(name, d, split_point(name));
}

proof fn lemma_no_split_leading_dot(name: Seq<char>)
    requires
        is_last_dot(name, 0),
    ensures
        !has_split(name),
{
    if has_split(name) {
        lemma_last_dot_unique(name, 0, split_point(name));
    }
}

/// The extension of a file name, without its dot.
pub fn file_extension(name: &str) -> (r: Option<&str>)
    ensures
        r is Some <==> spec_extension(name@) is Some,
        r matches Some(e) ==> spec_extension(name@) == Some(e@),
{
    match find_split(name) {
        Some(d) => {
            let len = name.unicode_len();
            let ext = name.substring_char(d + 1, len);
            assert(ext@ =~= name@.skip(d as int + 1));
            Some(ext)
        },
        None => None,
    }
}

/// The stem of a file name.
pub fn file_stem(name: &str) -> (r: &str)
    ensures
        r@ == spec_stem(name@),
{
    match find_split(name) {
        Some(d) => {
            let stem = name.substring_char(0, d);
            assert(stem@ =~= name@.take(d as int));
            stem
        },
        None => name,
    }
}

/// The lower-case form of a text, as `str::to_lowercase` of the standard
/// library gives it: each character replaced by its Unicode lower-case
/// mapping, which may be more than one character.
pub uninterp spec fn lowercase_of(s: Seq<char>) -> Seq<char>;

/// Calls `str::to_lowercase`. Nothing is claimed of the result but that it is
/// a function of the characters of `s` alone, named [`lowercase_of`].
#[verifier::external_body]
pub(crate) fn lowercase(s: &str) -> (r: String)
    ensures
        r@ == lowercase_of(s@),
{
    s.to_lowercase()
}

/// `lowered` is one of the extensions of the image formats that the viewer
/// shows: `jpg`, `jpeg`, `png` or `webp`, in lower case.
pub open spec fn spec_supported_extension(lowered: Seq<char>) -> bool {
    lowered == "jpg"@ || lowered == "jpeg"@ || lowered == "png"@ || lowered == "webp"@
}

/// A file of this name is taken for an image: it has an extension, and the
/// extension in lower case is a supported one.
pub open spec fn spec_image_name(name: Seq<char>) -> bool {
    match spec_extension(name) {
        Some(ext) => spec_supported_extension(lowercase_of(ext)),
        None => false,
    }
}

/// Tells whether an extension, already in lower case, is that of a supported
/// image format.
pub fn is_supported_extension(lowered: &str) -> (r: bool)
    ensures
        r == spec_supported_extension(lowered@),
{
    let owned = lowered.to_owned();
    owned == "jpg".to_owned() || owned == "jpeg".to_owned() || owned == "png".to_owned() || owned
        == "webp".to_owned()
}

/// Tells whether a file of this name is taken for an image. Only the name
/// decides; the file's content is not looked at.
pub fn is_image_name(name: &str) -> (r: bool)
    ensures
        r == spec_image_name(name@),
{
    match file_extension(name) {
        Some(ext) => {
            let lowered = lowercase(ext);
            is_supported_extension(lowered.as_str())
        },
        None => false,
    }
}

/// `c` is one of the ten decimal digits.
pub open spec fn is_digit(c: char) -> bool {
    '0' <= c <= '9'
}

/// The value of a decimal digit.
pub open spec fn digit_value(c: char) -> nat
    recommends
        is_digit(c),
{
    (c as int - '0' as int) as nat
}

/// Every character of `s` is a decimal digit.
pub open spec fn all_digits(s: Seq<char>) -> bool {
    forall|i: int| 0 <= i < s.len() ==> is_digit(#[trigger] s[i])
}

/// The number that a sequence of decimal digits writes; 0 for no digits.
pub open spec fn decimal_value(digits: Seq<char>) -> nat
    decreases digits.len(),
{
    if digits.len() == 0 {
        0
    } else {
        10 * decimal_value(digits.drop_last()) + digit_value(digits.last())
    }
}

/// `s` without one leading `+`.
pub open spec fn unsigned_part(s: Seq<char>) -> Seq<char> {
    if s.len() > 0 && s[0] == '+' {
        s.skip(1)
    } else {
        s
    }
}

/// The number that `s` writes, if it writes one: an optional `+`, then one or
/// more decimal digits and nothing else, with a value that fits 64 bits.
pub open spec fn spec_parse_number(s: Seq<char>) -> Option<u64> {
    let digits = unsigned_part(s);
    if digits.len() > 0 && all_digits(digits) && decimal_value(digits) <= u64::MAX {
        Some(decimal_value(digits) as u64)
    } else {
        None
    }
}

/// A number never gets smaller by writing more digits behind it.
pub proof fn lemma_decimal_value_prefix(digits: Seq<char>, k: int)
    requires
        0 <= k <= digits.len(),
    ensures
        decimal_value(digits.take(k)) <= decimal_value(digits),
    decreases digits.len() - k,
{
    if k == digits.len() {
        assert(digits.take(k) =~= digits);
    } else {
        lemma_decimal_value_prefix(digits.drop_last(), k);
        assert(digits.drop_last().take(k) =~= digits.take(k));
    }
}

/// The digit that `c` stands for, if it is one.
pub fn digit_of(c: char) -> (r: Option<u8>)
    ensures
        r is Some <==> is_digit(c),
        r matches Some(v) ==> v == digit_value(c) && v <= 9,
{
    if '0' <= c && c <= '9' {
        Some((c as u32 - '0' as u32) as u8)
    } else {
        None
    }
}

/// Reads a number: an optional `+`, then decimal digits only. Anything else,
/// the empty text, a lone `+` and a value beyond 64 bits are no number.
pub fn parse_number(s: &str) -> (r: Option<u64>)
    ensures
        r == spec_parse_number(s@),
{
    let chars = chars_of(s);
    let n = chars.len();
    let start: usize = if n > 0 && chars[0] == '+' {
        1
    } else {
        0
    };
    if start == n {
        return None;
    }
    let ghost digits = unsigned_part(s@);
    assert(digits =~= chars@.skip(start as int));
    let mut value: u64 = 0;
    let mut i: usize = start;
    while i < n
        invariant
            start <= i <= n,
            n == chars.len(),
            digits == chars@.skip(start as int),
            digits == unsigned_part(s@),
            all_digits(digits.take(i - start)),
            value == decimal_value(digits.take(i - start)),
        decreases n - i,
    {
        let ghost seen = digits.take(i - start);
        let ghost next = digits.take(i + 1 - start);
        assert(next.drop_last() =~= seen);
        assert(next.last() == chars@[i as int]);
        match digit_of(chars[i]) {
            None => {
                assert(!is_digit(digits[i - start]));
                return None;
            },
            Some(v) => {
                let shifted = match value.checked_mul(10) {
                    Some(x) => x.checked_add(v as u64),
                    None => None,
                };
                match shifted {
                    Some(x) => {
                        value = x;
                    },
                    None => {
                        proof {
                            assert(decimal_value(next) > u64::MAX);
                            lemma_decimal_value_prefix(digits, i + 1 - start);
                        }
                        return None;
                    },
                }
            },
        }
        i += 1;
    }
    assert(digits.take(n - start) =~= digits);
    Some(value)
}

/// The character that writes the digit `d`.
pub open spec fn digit_char(d: nat) -> char
    recommends
        d <= 9,
{
    ('0' as nat + d) as char
}

/// The decimal digits that write `n`, without leading zeros.
pub open spec fn decimal_digits(n: nat) -> Seq<char>
    decreases n,
{
    if n < 10 {
        seq![digit_char(n)]
    } else {
        decimal_digits(n / 10).push(digit_char(n % 10))
    }
}

/// The digits that write a number are digits, and they write that number.
pub proof fn lemma_decimal_digits_value(n: nat)
    ensures
        decimal_digits(n).len() > 0,
        all_digits(decimal_digits(n)),
        decimal_value(decimal_digits(n)) == n,
    decreases n,
{
    let digits = decimal_digits(n);
    if n < 10 {
        assert(digits.drop_last() =~= Seq::<char>::empty());
        assert(decimal_value(digits.drop_last()) == 0);
        assert(digits.last() == digit_char(n));
    } else {
        lemma_decimal_digits_value(n / 10);
        assert(digits.drop_last() =~= decimal_digits(n / 10));
        assert(digits.last() == digit_char(n % 10));
    }
}

/// A number that was written in decimal digits is read back as itself.
pub proof fn lemma_number_round_trip(n: u64)
    ensures
        spec_parse_number(decimal_digits(n as nat)) == Some(n),
{
    lemma_decimal_digits_value(n as nat);
    let digits = decimal_digits(n as nat);
    assert(is_digit(digits[0]));
    assert(unsigned_part(digits) == digits);
}

/// The text of one digit.
fn digit_text(d: u8) -> (r: &'static str)
    requires
        d <= 9,
    ensures
        r@ == seq![digit_char(d as nat)],
{
    proof {
        reveal_strlit("0");
        reveal_strlit("1");
        reveal_strlit("2");
        reveal_strlit("3");
        reveal_strlit("4");
        reveal_strlit("5");
        reveal_strlit("6");
        reveal_strlit("7");
        reveal_strlit("8");
        reveal_strlit("9");
    }
    let r = match d {
        0 => "0",
        1 => "1",
        2 => "2",
        3 => "3",
        4 => "4",
        5 => "5",
        6 => "6",
        7 => "7",
        8 => "8",
        _ => "9",
    };
    assert(r@ =~= seq![digit_char(d as nat)]);
    r
}

/// Writes a number in decimal digits.
pub fn number_text(n: u64) -> (r: String)
    ensures
        r@ == decimal_digits(n as nat),
    decreases n,
{
    if n < 10 {
        digit_text(n as u8).to_owned()
    } else {
        let mut text = number_text(n / 10);
        text.append(digit_text((n % 10) as u8));
        assert(text@ =~= decimal_digits(n as nat));
        text
    }
}

/// `a` and `b` have the same first `k` characters.
pub open spec fn agree_up_to(a: Seq<char>, b: Seq<char>, k: int) -> bool {
    &&& 0 <= k <= a.len()
    &&& k <= b.len()
    &&& forall|i: int| 0 <= i < k ==> a[i] == b[i]
}

/// `a` comes before `b` in the order of text: where they first differ `a` has
/// the smaller character, or `a` ends there and `b` goes on. Characters
/// compare by their code points.
pub open spec fn spec_text_less(a: Seq<char>, b: Seq<char>) -> bool {
    exists|k: int| #[trigger]
        agree_up_to(a, b, k) && k < b.len() && (k < a.len() ==> a[k] < b[k])
}

/// Tells whether `a` comes before `b` in the order of text.
pub fn text_less(a: &Vec<char>, b: &Vec<char>) -> (r: bool)
    ensures
        r == spec_text_less(a@, b@),
{
    let mut i: usize = 0;
    while i < a.len() && i < b.len()
        invariant
            agree_up_to(a@, b@, i as int),
        decreases a.len() - i,
    {
        if a[i] != b[i] {
            let less = a[i] < b[i];
            proof {
                lemma_first_difference(a@, b@, i as int);
            }
            return less;
        }
        i += 1;
    }
    proof {
        lemma_first_difference(a@, b@, i as int);
    }
    i < b.len()
}

/// The order of two texts is decided where they first differ, or where the
/// shorter one ends.
pub proof fn lemma_first_difference(a: Seq<char>, b: Seq<char>, k: int)
    requires
        agree_up_to(a, b, k),
        k < a.len() && k < b.len() ==> a[k] != b[k],
    ensures
        spec_text_less(a, b) <==> k < b.len() && (k < a.len() ==> a[k] < b[k]),
{
    if spec_text_less(a, b) {
        let m = choose|m: int| #[trigger]
            agree_up_to(a, b, m) && m < b.len() && (m < a.len() ==> a[m] < b[m]);
        if m < k {
            assert(a[m] == b[m]);
        } else if m > k {
            assert(a[k] == b[k]);
        }
    }
}

/// No text comes before itself, and of two texts at most one comes before
/// the other.
pub proof fn lemma_text_less_asymmetric(a: Seq<char>, b: Seq<char>)
    ensures
        !(spec_text_less(a, b) && spec_text_less(b, a)),
        !spec_text_less(a, a),
{
    if spec_text_less(a, b) && spec_text_less(b, a) {
        let k = choose|k: int| #[trigger]
            agree_up_to(a, b, k) && k < b.len() && (k < a.len() ==> a[k] < b[k]);
        let m = choose|m: int| #[trigger]
            agree_up_to(b, a, m) && m < a.len() && (m < b.len() ==> b[m] < a[m]);
        if k < m {
            assert(b[k] == a[k]);
        } else if m < k {
            assert(a[m] == b[m]);
        }
    }
    if spec_text_less(a, a) {
        let k = choose|k: int| #[trigger]
            agree_up_to(a, a, k) && k < a.len() && (k < a.len() ==> a[k] < a[k]);
    }
}

/// The order of text is transitive.
pub proof fn lemma_text_less_transitive(a: Seq<char>, b: Seq<char>, c: Seq<char>)
    requires
        spec_text_less(a, b),
        spec_text_less(b, c),
    ensures
        spec_text_less(a, c),
{
    let k = choose|k: int| #[trigger]
        agree_up_to(a, b, k) && k < b.len() && (k < a.len() ==> a[k] < b[k]);
    let m = choose|m: int| #[trigger]
        agree_up_to(b, c, m) && m < c.len() && (m < b.len() ==> b[m] < c[m]);
    let n = if k <= m {
        k
    } else {
        m
    };
    assert forall|i: int| 0 <= i < n implies a[i] == c[i] by {
        assert(a[i] == b[i]);
        assert(b[i] == c[i]);
    }
    assert(agree_up_to(a, c, n));
    if k < m {
        assert(b[k] == c[k]);
    } else if m < k {
        assert(a[m] == b[m]);
    }
    assert(n < c.len() && (n < a.len() ==> a[n] < c[n]));
}

/// Of two different texts one comes before the other.
pub proof fn lemma_text_less_total(a: Seq<char>, b: Seq<char>)
    ensures
        a == b || spec_text_less(a, b) || spec_text_less(b, a),
{
    lemma_text_order_from(a, b, 0);
}

proof fn lemma_text_order_from(a: Seq<char>, b: Seq<char>, k: int)
    requires
        agree_up_to(a, b, k),
    ensures
        a == b || spec_text_less(a, b) || spec_text_less(b, a),
    decreases a.len() - k,
{
    if k < a.len() && k < b.len() && a[k] == b[k] {
        assert(agree_up_to(a, b, k + 1));
        lemma_text_order_from(a, b, k + 1);
    } else {
        assert(agree_up_to(b, a, k));
        if k == a.len() && k == b.len() {
            assert(a =~= b);
        } else {
            lemma_first_difference(a, b, k);
            lemma_first_difference(b, a, k);
        }
    }
}

} // verus!
